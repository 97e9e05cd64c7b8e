use std::collections::HashMap;
use vstd::prelude::*;
use crate::bril::{InsnType, Instr, blocks_view, insns_view, strs_view, str_eq, label_target, find_label, lemma_label_target_bounds};

verus! {

broadcast use vstd::std_specs::hash::group_hash_axioms;

/// Predecessor and successor lists of the blocks of a function, by block index.
pub struct Cfg {
    preds_adj_list: HashMap<u32, Vec<u32>>,
    succs_adj_list: HashMap<u32, Vec<u32>>,
}

/// The model of a control-flow graph: each block's predecessor list and
/// successor list, in the order the edges were added.
pub struct CfgView {
    pub preds: Map<u32, Seq<u32>>,
    pub succs: Map<u32, Seq<u32>>,
}

/// Appends `x` to the list of `k`, creating the list when `k` has none.
pub open spec fn append_to(m: Map<u32, Seq<u32>>, k: u32, x: u32) -> Map<u32, Seq<u32>> {
    if m.contains_key(k) {
        m.insert(k, m[k].push(x))
    } else {
        m.insert(k, seq![x])
    }
}

/// The lists of the indices `0..n`, each empty.
pub open spec fn empty_lists(n: nat) -> Map<u32, Seq<u32>> {
    Map::new(|k: u32| k < n, |k: u32| Seq::<u32>::empty())
}

impl CfgView {
    /// Every index that occurs in the graph, as a key or in a list, is below `n`.
    pub open spec fn bounded(self, n: nat) -> bool {
        &&& forall|k: u32| #[trigger] self.preds.contains_key(k) ==> k < n
        &&& forall|k: u32| #[trigger] self.succs.contains_key(k) ==> k < n
        &&& forall|k: u32, i: int|
            self.preds.contains_key(k) && 0 <= i < self.preds[k].len() ==> #[trigger] self.preds[k][i] < n
        &&& forall|k: u32, i: int|
            self.succs.contains_key(k) && 0 <= i < self.succs[k].len() ==> #[trigger] self.succs[k][i] < n
    }

    /// `p` is a predecessor of `b` exactly when `b` is a successor of `p`.
    pub open spec fn symmetric(self) -> bool {
        forall|p: u32, b: u32| #[trigger] self.preds_of(b).contains(p) <==> #[trigger] self.succs_of(p).contains(b)
    }

    /// The graph with the edge `from -> to` added.
    pub open spec fn add_edge(self, from: u32, to: u32) -> CfgView {
        CfgView { preds: append_to(self.preds, to, from), succs: append_to(self.succs, from, to) }
    }

    /// The predecessors of `b`, empty where `b` has no list.
    pub open spec fn preds_of(self, b: u32) -> Seq<u32> {
        if self.preds.contains_key(b) { self.preds[b] } else { Seq::empty() }
    }

    /// The successors of `b`, empty where `b` has no list.
    pub open spec fn succs_of(self, b: u32) -> Seq<u32> {
        if self.succs.contains_key(b) { self.succs[b] } else { Seq::empty() }
    }
}

/// One call that changes a control-flow graph.
pub enum CfgCall {
    /// `init` over `n` blocks.
    Init(nat),
    /// `add_successor(block, succ)`.
    AddSuccessor(u32, u32),
    /// `add_predecessor(block, pred)`.
    AddPredecessor(u32, u32),
}

/// The graph with no lists, as `new` makes it.
pub open spec fn no_lists() -> CfgView {
    CfgView { preds: Map::empty(), succs: Map::empty() }
}

/// The graph after a call.
pub open spec fn after_call(c: CfgView, call: CfgCall) -> CfgView {
    match call {
        CfgCall::Init(n) => CfgView {
            preds: c.preds.union_prefer_right(empty_lists(n)),
            succs: c.succs.union_prefer_right(empty_lists(n)),
        },
        CfgCall::AddSuccessor(b, s) => CfgView { preds: c.preds, succs: append_to(c.succs, b, s) },
        CfgCall::AddPredecessor(b, p) => CfgView { preds: append_to(c.preds, b, p), succs: c.succs },
    }
}

/// The graph after the calls, in order.
pub open spec fn after_calls(c: CfgView, calls: Seq<CfgCall>) -> CfgView
    decreases calls.len(),
{
    if calls.len() == 0 {
        c
    } else {
        after_call(after_calls(c, calls.drop_last()), calls.last())
    }
}

/// The predecessor lists (where `preds`) or the successor lists.
pub open spec fn lists_of(c: CfgView, preds: bool) -> Map<u32, Seq<u32>> {
    if preds {
        c.preds
    } else {
        c.succs
    }
}

/// Whether the call touches the list of block `i` on that side: an `init`
/// that covers `i`, or an addition to `i`'s list.
pub open spec fn call_touches(call: CfgCall, i: u32, preds: bool) -> bool {
    match call {
        CfgCall::Init(n) => i < n,
        CfgCall::AddSuccessor(b, _) => !preds && b == i,
        CfgCall::AddPredecessor(b, _) => preds && b == i,
    }
}

/// Whether some call touches the list of block `i` on that side.
pub open spec fn listed(calls: Seq<CfgCall>, i: u32, preds: bool) -> bool {
    exists|k: int| 0 <= k < calls.len() && call_touches(#[trigger] calls[k], i, preds)
}

/// The entries added to the list of block `i` on that side since the last
/// `init` that covers `i`, in call order.
pub open spec fn recorded(calls: Seq<CfgCall>, i: u32, preds: bool) -> Seq<u32>
    decreases calls.len(),
{
    if calls.len() == 0 {
        Seq::empty()
    } else {
        let r = recorded(calls.drop_last(), i, preds);
        match calls.last() {
            CfgCall::Init(n) => if i < n { Seq::empty() } else { r },
            CfgCall::AddSuccessor(b, s) => if !preds && b == i { r.push(s) } else { r },
            CfgCall::AddPredecessor(b, p) => if preds && b == i { r.push(p) } else { r },
        }
    }
}

/// Starting from `new`, block `i` has a list on a side exactly when some
/// call touched it there, and that list holds, in call order, the entries
/// added since the last `init` that covered `i` (all of them where none
/// did).
pub proof fn lemma_lists_follow_calls(calls: Seq<CfgCall>, i: u32, preds: bool)
    ensures
        lists_of(after_calls(no_lists(), calls), preds).contains_key(i) == listed(calls, i, preds),
        listed(calls, i, preds) ==> lists_of(after_calls(no_lists(), calls), preds)[i] == recorded(calls, i, preds),
        !listed(calls, i, preds) ==> recorded(calls, i, preds) == Seq::<u32>::empty(),
    decreases calls.len(),
{
    if calls.len() > 0 {
        let p = calls.drop_last();
        lemma_lists_follow_calls(p, i, preds);
        assert forall|k: int| 0 <= k < p.len() implies #[trigger] p[k] == calls[k] by {}
        if listed(p, i, preds) {
            let k = choose|k: int| 0 <= k < p.len() && call_touches(#[trigger] p[k], i, preds);
            assert(call_touches(calls[k], i, preds));
        }
        if call_touches(calls.last(), i, preds) {
            assert(call_touches(calls[calls.len() - 1], i, preds));
        }
        if listed(calls, i, preds) && !listed(p, i, preds) {
            let k = choose|k: int| 0 <= k < calls.len() && call_touches(#[trigger] calls[k], i, preds);
            if k < p.len() {
                assert(call_touches(p[k], i, preds));
            }
        }
        let r = recorded(p, i, preds);
        match calls.last() {
            CfgCall::AddSuccessor(b, s) => {
                if !preds && b == i && !listed(p, i, preds) {
                    assert(r.push(s) =~= seq![s]);
                }
            },
            CfgCall::AddPredecessor(b, q) => {
                if preds && b == i && !listed(p, i, preds) {
                    assert(r.push(q) =~= seq![q]);
                }
            },
            CfgCall::Init(n) => {},
        }
    }
}

impl View for Cfg {
    type V = CfgView;

    closed spec fn view(&self) -> CfgView {
        CfgView {
            preds: self.preds_adj_list@.map_values(|v: Vec<u32>| v@),
            succs: self.succs_adj_list@.map_values(|v: Vec<u32>| v@),
        }
    }
}

impl Cfg {
    /// A graph with no lists.
    pub fn new() -> (r: Self)
        ensures
            r@.preds == Map::<u32, Seq<u32>>::empty(),
            r@.succs == Map::<u32, Seq<u32>>::empty(),
            r@ == no_lists(),
    {
        let r = Cfg { preds_adj_list: HashMap::new(), succs_adj_list: HashMap::new() };
        assert(r@.preds =~= Map::<u32, Seq<u32>>::empty());
        assert(r@.succs =~= Map::<u32, Seq<u32>>::empty());
        r
    }

    /// Gives each of the blocks an empty predecessor list and an empty successor list.
    pub fn init(&mut self, blocks: &Vec<crate::loops::Block>)
        requires
            blocks.len() <= u32::MAX + 1,
        ensures
            final(self)@.preds == old(self)@.preds.union_prefer_right(empty_lists(blocks.len() as nat)),
            final(self)@.succs == old(self)@.succs.union_prefer_right(empty_lists(blocks.len() as nat)),
            final(self)@ == after_call(old(self)@, CfgCall::Init(blocks.len() as nat)),
    {
        let n = blocks.len();
        let mut idx: usize = 0;
        while idx < n
            invariant
                n == blocks.len(),
                n <= u32::MAX + 1,
                idx <= n,
                self@.preds == old(self)@.preds.union_prefer_right(empty_lists(idx as nat)),
                self@.succs == old(self)@.succs.union_prefer_right(empty_lists(idx as nat)),
            decreases n - idx,
        {
            let ghost before = self@;
            let ghost inner_p = self.preds_adj_list@;
            let ghost inner_s = self.succs_adj_list@;
            let preds: Vec<u32> = Vec::new();
            let succs: Vec<u32> = Vec::new();
            self.preds_adj_list.insert(idx as u32, preds);
            self.succs_adj_list.insert(idx as u32, succs);
            assert(self.preds_adj_list@ == inner_p.insert(idx as u32, preds));
            assert(self@.preds =~= before.preds.insert(idx as u32, Seq::empty()));
            assert(self@.succs =~= before.succs.insert(idx as u32, Seq::empty()));
            assert(self@.preds =~= old(self)@.preds.union_prefer_right(empty_lists(idx as nat + 1)));
            assert(self@.succs =~= old(self)@.succs.union_prefer_right(empty_lists(idx as nat + 1)));
            idx += 1;
        }
    }

    /// The predecessor list of block `idx`, if it has one.
    pub fn get_predecessors(&self, idx: &u32) -> (r: Option<&Vec<u32>>)
        ensures
            match r {
                Some(v) => self@.preds.contains_key(*idx) && v@ == self@.preds[*idx],
                None => !self@.preds.contains_key(*idx),
            },
    {
        self.preds_adj_list.get(idx)
    }

    /// The successor list of block `idx`, if it has one.
    pub fn get_successors(&self, idx: &u32) -> (r: Option<&Vec<u32>>)
        ensures
            match r {
                Some(v) => self@.succs.contains_key(*idx) && v@ == self@.succs[*idx],
                None => !self@.succs.contains_key(*idx),
            },
    {
        self.succs_adj_list.get(idx)
    }

    /// Adds predecessor `pred_idx` to the predecessor list of `block_idx`.
    pub fn add_predecessor(&mut self, block_idx: &u32, pred_idx: u32)
        ensures
            final(self)@.preds == append_to(old(self)@.preds, *block_idx, pred_idx),
            final(self)@.succs == old(self)@.succs,
            final(self)@ == after_call(old(self)@, CfgCall::AddPredecessor(*block_idx, pred_idx)),
    {
        let mut list = match self.preds_adj_list.remove(block_idx) {
            Some(b) => b,
            None => Vec::new(),
        };
        list.push(pred_idx);
        self.preds_adj_list.insert(*block_idx, list);
        assert(self@.preds =~= append_to(old(self)@.preds, *block_idx, pred_idx));
    }

    /// Adds successor `succ` to the successor list of `block`.
    pub fn add_successor(&mut self, block: &u32, succ: u32)
        ensures
            final(self)@.succs == append_to(old(self)@.succs, *block, succ),
            final(self)@.preds == old(self)@.preds,
            final(self)@ == after_call(old(self)@, CfgCall::AddSuccessor(*block, succ)),
    {
        let mut list = match self.succs_adj_list.remove(block) {
            Some(b) => b,
            None => Vec::new(),
        };
        list.push(succ);
        self.succs_adj_list.insert(*block, list);
        assert(self@.succs =~= append_to(old(self)@.succs, *block, succ));
    }
}

/// The edges that leave block `i`: one to the target of each label of a
/// `br` terminator (and, where `follow_jumps`, of a `jmp` terminator), or,
/// where `follow_jumps` and the block does not end with a terminator, one to
/// the next block.
pub open spec fn block_edges(bs: Seq<Seq<Instr>>, i: int, follow_jumps: bool) -> Seq<(u32, u32)> {
    match bs[i].last() {
        Instr::Terminator { op, labels, .. } => {
            if op == "br"@ || (follow_jumps && op == "jmp"@) {
                labels.map_values(|l: Seq<char>| (i as u32, label_target(bs, l).unwrap() as u32))
            } else {
                Seq::empty()
            }
        },
        _ => {
            if follow_jumps && i + 1 < bs.len() {
                seq![(i as u32, (i + 1) as u32)]
            } else {
                Seq::empty()
            }
        },
    }
}

/// The edges that leave the first `k` blocks, block by block.
pub open spec fn edges_upto(bs: Seq<Seq<Instr>>, k: int, follow_jumps: bool) -> Seq<(u32, u32)>
    decreases k,
{
    if k <= 0 {
        Seq::empty()
    } else {
        edges_upto(bs, k - 1, follow_jumps) + block_edges(bs, k - 1, follow_jumps)
    }
}

/// The graph with the edges added in order.
pub open spec fn add_edges(c: CfgView, es: Seq<(u32, u32)>) -> CfgView
    decreases es.len(),
{
    if es.len() == 0 {
        c
    } else {
        add_edges(c, es.drop_last()).add_edge(es.last().0, es.last().1)
    }
}

/// Each label that a followed terminator names opens some block.
pub open spec fn labels_resolve(bs: Seq<Seq<Instr>>, follow_jumps: bool) -> bool {
    forall|i: int| 0 <= i < bs.len() ==> #[trigger] block_resolves(bs, i, follow_jumps)
}

/// Each label that the terminator of block `i` names, where it is followed,
/// opens some block.
pub open spec fn block_resolves(bs: Seq<Seq<Instr>>, i: int, follow_jumps: bool) -> bool {
    match bs[i].last() {
        Instr::Terminator { op, labels, .. } => (op == "br"@ || (follow_jumps && op == "jmp"@))
            ==> forall|j: int| 0 <= j < labels.len() ==> label_target(bs, #[trigger] labels[j]) is Some,
        _ => true,
    }
}

/// Every block holds an instruction.
pub open spec fn all_nonempty(bs: Seq<Seq<Instr>>) -> bool {
    forall|i: int| 0 <= i < bs.len() ==> (#[trigger] bs[i]).len() > 0
}

/// Adding one more edge at the end of the list adds it last.
pub proof fn lemma_add_edges_push(c: CfgView, es: Seq<(u32, u32)>, e: (u32, u32))
    ensures
        add_edges(c, es.push(e)) == add_edges(c, es).add_edge(e.0, e.1),
{
    assert(es.push(e).drop_last() == es);
}

/// Adding edges between indices below `n` keeps a graph bounded by `n`.
pub proof fn lemma_add_edges_bounded(c: CfgView, es: Seq<(u32, u32)>, n: nat)
    requires
        c.bounded(n),
        forall|k: int| 0 <= k < es.len() ==> (#[trigger] es[k]).0 < n && es[k].1 < n,
    ensures
        add_edges(c, es).bounded(n),
    decreases es.len(),
{
    if es.len() > 0 {
        assert forall|k: int| 0 <= k < es.drop_last().len() implies (#[trigger] es.drop_last()[k]).0 < n
            && es.drop_last()[k].1 < n by {
            assert(es.drop_last()[k] == es[k]);
        }
        lemma_add_edges_bounded(c, es.drop_last(), n);
        let e = es.last();
        assert(es[es.len() - 1] == e);
    }
}

/// The edges that leave the blocks all join blocks of the function.
pub proof fn lemma_edges_bounded(bs: Seq<Seq<Instr>>, k: int, follow_jumps: bool)
    requires
        0 <= k <= bs.len(),
        bs.len() <= u32::MAX + 1,
        all_nonempty(bs),
        labels_resolve(bs, follow_jumps),
    ensures
        forall|m: int| 0 <= m < edges_upto(bs, k, follow_jumps).len()
            ==> (#[trigger] edges_upto(bs, k, follow_jumps)[m]).0 < bs.len()
                && edges_upto(bs, k, follow_jumps)[m].1 < bs.len(),
    decreases k,
{
    if k > 0 {
        lemma_edges_bounded(bs, k - 1, follow_jumps);
        let prev = edges_upto(bs, k - 1, follow_jumps);
        let be = block_edges(bs, k - 1, follow_jumps);
        assert forall|m: int| 0 <= m < be.len() implies (#[trigger] be[m]).0 < bs.len() && be[m].1 < bs.len() by {
            let i = k - 1;
            assert(bs[i].len() > 0);
            assert(block_resolves(bs, i, follow_jumps));
            match bs[i].last() {
                Instr::Terminator { op, labels, .. } => {
                    if op == "br"@ || (follow_jumps && op == "jmp"@) {
                        assert(label_target(bs, labels[m]) is Some);
                        lemma_label_target_bounds(bs, labels[m]);
                    }
                },
                _ => {},
            }
        }
        let all = edges_upto(bs, k, follow_jumps);
        assert forall|m: int| 0 <= m < all.len() implies (#[trigger] all[m]).0 < bs.len() && all[m].1 < bs.len() by {
            if m < prev.len() {
                assert(all[m] == prev[m]);
            } else {
                assert(all[m] == be[m - prev.len()]);
            }
        }
    }
}

/// Adding edges never drops a list.
pub proof fn lemma_add_edges_keeps_keys(c: CfgView, es: Seq<(u32, u32)>)
    ensures
        forall|k: u32| c.preds.contains_key(k) ==> #[trigger] add_edges(c, es).preds.contains_key(k),
        forall|k: u32| c.succs.contains_key(k) ==> #[trigger] add_edges(c, es).succs.contains_key(k),
    decreases es.len(),
{
    if es.len() > 0 {
        lemma_add_edges_keeps_keys(c, es.drop_last());
        let prev = add_edges(c, es.drop_last());
        let e = es.last();
        assert forall|k: u32| c.preds.contains_key(k) implies #[trigger] add_edges(c, es).preds.contains_key(k) by {
            assert(prev.preds.contains_key(k));
        }
        assert forall|k: u32| c.succs.contains_key(k) implies #[trigger] add_edges(c, es).succs.contains_key(k) by {
            assert(prev.succs.contains_key(k));
        }
    }
}

/// Adding edges keeps the predecessor and successor lists in step.
pub proof fn lemma_add_edges_symmetric(c: CfgView, es: Seq<(u32, u32)>)
    requires
        c.symmetric(),
    ensures
        add_edges(c, es).symmetric(),
    decreases es.len(),
{
    if es.len() > 0 {
        lemma_add_edges_symmetric(c, es.drop_last());
        let prev = add_edges(c, es.drop_last());
        let (f, t) = es.last();
        let next = add_edges(c, es);
        assert(next == prev.add_edge(f, t));
        assert forall|p: u32, b: u32| #[trigger] next.preds_of(b).contains(p) <==> #[trigger] next.succs_of(p).contains(b) by {
            assert(next.preds_of(t) =~= prev.preds_of(t).push(f));
            assert(next.succs_of(f) =~= prev.succs_of(f).push(t));
            if b != t {
                assert(next.preds_of(b) == prev.preds_of(b));
            }
            if p != f {
                assert(next.succs_of(p) == prev.succs_of(p));
            }
            if next.preds_of(b).contains(p) {
                if !(b == t && p == f) {
                    if b == t {
                        let k = choose|k: int| 0 <= k < next.preds_of(b).len() && next.preds_of(b)[k] == p;
                        assert(prev.preds_of(b)[k] == p);
                    }
                    assert(prev.preds_of(b).contains(p));
                    assert(prev.succs_of(p).contains(b));
                    let k = choose|k: int| 0 <= k < prev.succs_of(p).len() && prev.succs_of(p)[k] == b;
                    assert(next.succs_of(p)[k] == b);
                } else {
                    assert(next.succs_of(f)[prev.succs_of(f).len() as int] == t);
                }
            }
            if next.succs_of(p).contains(b) {
                if !(b == t && p == f) {
                    if p == f {
                        let k = choose|k: int| 0 <= k < next.succs_of(p).len() && next.succs_of(p)[k] == b;
                        assert(prev.succs_of(p)[k] == b);
                    }
                    assert(prev.succs_of(p).contains(b));
                    assert(prev.preds_of(b).contains(p));
                    let k = choose|k: int| 0 <= k < prev.preds_of(b).len() && prev.preds_of(b)[k] == p;
                    assert(next.preds_of(b)[k] == p);
                } else {
                    assert(next.preds_of(t)[prev.preds_of(t).len() as int] == f);
                }
            }
        }
    }
}

/// The graph of `n` blocks with an empty list for each and no edge.
pub open spec fn unlinked(n: nat) -> CfgView {
    CfgView { preds: empty_lists(n), succs: empty_lists(n) }
}

/// Adds to `cfg` the edges that leave the blocks, block by block: for each
/// label of a `br` terminator (and, where `follow_jumps`, of a `jmp`
/// terminator) an edge to the last block that opens with that label, and,
/// where `follow_jumps`, an edge from each block that does not end with a
/// terminator to the next block.
pub fn link_blocks(cfg: &mut Cfg, blocks: &Vec<Vec<InsnType>>, follow_jumps: bool)
    requires
        blocks.len() <= u32::MAX,
        all_nonempty(blocks_view(blocks@)),
        labels_resolve(blocks_view(blocks@), follow_jumps),
    ensures
        final(cfg)@ == add_edges(old(cfg)@, edges_upto(blocks_view(blocks@), blocks.len() as int, follow_jumps)),
{
    let ghost bs = blocks_view(blocks@);
    let ghost c0 = cfg@;
    let n = blocks.len();
    let mut idx: usize = 0;
    while idx < n
        invariant
            n == blocks.len(),
            n <= u32::MAX,
            idx <= n,
            bs == blocks_view(blocks@),
            all_nonempty(bs),
            labels_resolve(bs, follow_jumps),
            cfg@ == add_edges(c0, edges_upto(bs, idx as int, follow_jumps)),
        decreases n - idx,
    {
        let block = &blocks[idx];
        assert(bs[idx as int] == insns_view(block@));
        assert(bs[idx as int].len() > 0);
        let ghost before = edges_upto(bs, idx as int, follow_jumps);
        let ghost be = block_edges(bs, idx as int, follow_jumps);
        let last_insn = &block[block.len() - 1];
        assert(bs[idx as int].last() == last_insn@);
        let mut handled = false;
        match last_insn {
            InsnType::Terminator { op, labels, .. } => {
                handled = true;
                if str_eq(op.as_str(), "br") || (follow_jumps && str_eq(op.as_str(), "jmp")) {
                    let mut j: usize = 0;
                    while j < labels.len()
                        invariant
                            n == blocks.len(),
                            n <= u32::MAX,
                            idx < n,
                            j <= labels.len(),
                            bs == blocks_view(blocks@),
                            labels_resolve(bs, follow_jumps),
                            bs[idx as int].last() == last_insn@,
                            last_insn@ matches Instr::Terminator { op: o, labels: ls, .. } && (o == "br"@
                                || (follow_jumps && o == "jmp"@)) && ls == strs_view(labels@),
                            be == block_edges(bs, idx as int, follow_jumps),
                            be.len() == labels.len(),
                            cfg@ == add_edges(c0, before + be.take(j as int)),
                        decreases labels.len() - j,
                    {
                        let label = &labels[j];
                        assert(block_resolves(bs, idx as int, follow_jumps));
                        assert(strs_view(labels@)[j as int] == label@);
                        let t = find_label(blocks, label);
                        proof {
                            lemma_label_target_bounds(bs, label@);
                        }
                        let succ_idx = t.unwrap();
                        let block_idx = idx as u32;
                        cfg.add_successor(&block_idx, succ_idx as u32);
                        cfg.add_predecessor(&(succ_idx as u32), block_idx);
                        proof {
                            assert(be[j as int] == (block_idx, succ_idx as u32));
                            assert(before + be.take(j as int + 1) == (before + be.take(j as int)).push(be[j as int]));
                            lemma_add_edges_push(c0, before + be.take(j as int), be[j as int]);
                        }
                        j += 1;
                    }
                    assert(be.take(labels.len() as int) == be);
                } else {
                    assert(be == Seq::<(u32, u32)>::empty());
                    assert(before + be == before);
                }
            },
            _ => {},
        }
        if !handled {
            if follow_jumps && idx + 1 < n {
                let from = idx as u32;
                let to = (idx + 1) as u32;
                cfg.add_successor(&from, to);
                cfg.add_predecessor(&to, from);
                proof {
                    assert(be == seq![(from, to)]);
                    assert(before + be == before.push((from, to)));
                    lemma_add_edges_push(c0, before, (from, to));
                }
            } else {
                assert(be == Seq::<(u32, u32)>::empty());
                assert(before + be == before);
            }
        }
        idx += 1;
    }
}

} // verus!
