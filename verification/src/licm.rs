use std::collections::{HashMap, HashSet};
use vstd::prelude::*;
use crate::bril::{InsnType, Instr, defined_names, dest_of, dest_seq, insns_view, lemma_defined_names, opt_strs_view, extend_insns};
use crate::cfg::CfgView;
use crate::reaching::{defined_transfer, rd_entry, rd_init_inputs, reaching_sets, sets_view};
use crate::loops::{Block, BlockName, FuncContext, block_models, loop_body, back_edge_of};
use crate::bril::strs_view;
use crate::names::{distinct, name_set, add_name, has_name, union_names, difference_names, names_from};

verus! {

/// A definition: a variable and the blocks that assign it.
#[derive(PartialEq, Eq, Clone)]
pub struct Definition(pub String, pub Vec<BlockName>);

/// The instructions of the blocks of `body` below `k`, in block order, each
/// paired with the index of its block.
pub open spec fn loop_stream(bs: Seq<Seq<Instr>>, body: Set<u32>, k: int) -> Seq<(u32, Instr)>
    decreases k,
{
    if k <= 0 {
        Seq::empty()
    } else {
        loop_stream(bs, body, k - 1) + if body.contains((k - 1) as u32) {
            bs[k - 1].map_values(|i: Instr| ((k - 1) as u32, i))
        } else {
            Seq::empty()
        }
    }
}

/// Whether every argument reaches the end of block `b` and was hoisted already.
pub open spec fn args_invariant(args: Seq<Seq<char>>, reach: Set<Seq<char>>, hoisted_defs: Set<Seq<char>>) -> bool {
    forall|j: int| 0 <= j < args.len() ==> reach.contains(#[trigger] args[j]) && hoisted_defs.contains(args[j])
}

/// Scanning the loop's instructions in order: the instructions hoisted so
/// far and the variables they assign. Every constant is hoisted; a value
/// operation with arguments and no functions is hoisted where each argument
/// reaches the end of its block and is assigned by an instruction hoisted
/// before it; nothing else is.
pub open spec fn hoist(stream: Seq<(u32, Instr)>, rd: Seq<Set<Seq<char>>>) -> (Seq<Instr>, Set<Seq<char>>)
    decreases stream.len(),
{
    if stream.len() == 0 {
        (Seq::empty(), Set::empty())
    } else {
        let (ins, defs) = hoist(stream.drop_last(), rd);
        let (blk, x) = stream.last();
        match x {
            Instr::Constant { dest, .. } => (ins.push(x), defs.insert(dest)),
            Instr::ValOp { dest, args: Some(a), funcs: None, .. } => {
                if args_invariant(a, rd[blk as int], defs) {
                    (ins.push(x), defs.insert(dest))
                } else {
                    (ins, defs)
                }
            },
            _ => (ins, defs),
        }
    }
}

/// The instructions hoisted out of the loop that block `tail` closes.
pub open spec fn hoisted(ctx: FuncContext, tail: u32) -> Seq<Instr> {
    let bs = block_models(ctx.block_seq());
    let c = ctx.cfg_view();
    let body = loop_body(c, tail, back_edge_of(c, ctx.dominator_sets(), tail)->0);
    hoist(loop_stream(bs, body, bs.len() as int), reaching_sets(c, bs, ctx.arg_names())).0
}

/// Whether block `b` closes a loop.
pub open spec fn closes_loop(ctx: FuncContext, b: u32) -> bool {
    b < ctx.block_seq().len() && back_edge_of(ctx.cfg_view(), ctx.dominator_sets(), b) is Some
}

/// The name of the hoisted block of the loop that block `b` closes: hoisted
/// blocks are numbered on from the function's blocks, in the order of the
/// blocks they come before.
pub open spec fn preheader_name(ctx: FuncContext, b: u32) -> BlockName {
    BlockName((ctx.block_seq().len() + Set::new(|x: u32| closes_loop(ctx, x) && x < b).len()) as u32)
}

/// The program of the first `k` blocks, each preceded by its hoisted block.
pub open spec fn program_upto(bs: Seq<Seq<Instr>>, pre: Map<u32, Block>, k: int) -> Seq<Instr>
    decreases k,
{
    if k <= 0 {
        Seq::empty()
    } else {
        program_upto(bs, pre, k - 1) + (if pre.contains_key((k - 1) as u32) {
            insns_view(pre[(k - 1) as u32].instructions@)
        } else {
            Seq::empty()
        }) + bs[k - 1]
    }
}

/// Only constants and value operations with arguments and no functions are
/// hoisted (no terminator, effect, label or call moves), and each hoisted
/// instruction is one of the scanned instructions.
pub proof fn lemma_hoist_kinds(stream: Seq<(u32, Instr)>, rd: Seq<Set<Seq<char>>>)
    ensures
        forall|i: int| 0 <= i < hoist(stream, rd).0.len() ==> {
            let x = #[trigger] hoist(stream, rd).0[i];
            &&& (x is Constant || x matches Instr::ValOp { args: Some(_), funcs: None, .. })
            &&& exists|j: int| 0 <= j < stream.len() && stream[j].1 == x
        },
    decreases stream.len(),
{
    if stream.len() > 0 {
        let p = stream.drop_last();
        lemma_hoist_kinds(p, rd);
        let h0 = hoist(p, rd).0;
        let h = hoist(stream, rd).0;
        assert forall|i: int| 0 <= i < h.len() implies {
            let x = #[trigger] h[i];
            &&& (x is Constant || x matches Instr::ValOp { args: Some(_), funcs: None, .. })
            &&& exists|j: int| 0 <= j < stream.len() && stream[j].1 == x
        } by {
            if i < h0.len() {
                assert(h[i] == h0[i]);
                let j = choose|j: int| 0 <= j < p.len() && p[j].1 == h0[i];
                assert(stream[j] == p[j]);
            } else {
                assert(h[i] == stream.last().1);
                assert(stream[stream.len() - 1].1 == h[i]);
            }
        }
    }
}

/// The arguments of a value operation (none for other instructions).
pub open spec fn value_args(x: Instr) -> Seq<Seq<char>> {
    match x {
        Instr::ValOp { args: Some(a), .. } => a,
        _ => Seq::empty(),
    }
}

/// A name is among the hoisted definitions exactly when some hoisted
/// instruction assigns it.
proof fn lemma_hoist_defs(stream: Seq<(u32, Instr)>, rd: Seq<Set<Seq<char>>>)
    ensures
        forall|x: Seq<char>| hoist(stream, rd).1.contains(x) <==> exists|k: int|
            0 <= k < hoist(stream, rd).0.len() && dest_of(#[trigger] hoist(stream, rd).0[k]) == Some(x),
    decreases stream.len(),
{
    if stream.len() > 0 {
        let p = stream.drop_last();
        lemma_hoist_defs(p, rd);
        let (h0, d0) = hoist(p, rd);
        let (h, d) = hoist(stream, rd);
        assert forall|x: Seq<char>| d.contains(x) <==> exists|k: int| 0 <= k < h.len() && dest_of(#[trigger] h[k]) == Some(x) by {
            if h.len() > h0.len() {
                assert(h == h0.push(stream.last().1));
                if d.contains(x) {
                    if d0.contains(x) {
                        let k = choose|k: int| 0 <= k < h0.len() && dest_of(#[trigger] h0[k]) == Some(x);
                        assert(h[k] == h0[k]);
                    } else {
                        assert(dest_of(h[h0.len() as int]) == Some(x));
                    }
                }
                if exists|k: int| 0 <= k < h.len() && dest_of(#[trigger] h[k]) == Some(x) {
                    let k = choose|k: int| 0 <= k < h.len() && dest_of(#[trigger] h[k]) == Some(x);
                    if k < h0.len() {
                        assert(h0[k] == h[k]);
                    }
                }
            } else {
                assert(h == h0);
            }
        }
    }
}

/// Some instruction before position `i` of `h` assigns `x`.
pub open spec fn assigned_before(h: Seq<Instr>, i: int, x: Seq<char>) -> bool {
    exists|k: int| #![trigger h[k]] 0 <= k < i && dest_of(h[k]) == Some(x)
}

/// Each argument of the value operation at `i` is assigned by an
/// instruction before it in `h`.
pub open spec fn args_defined_before(h: Seq<Instr>, i: int) -> bool {
    forall|j: int| #![trigger value_args(h[i])[j]] 0 <= j < value_args(h[i]).len()
        ==> assigned_before(h, i, value_args(h[i])[j])
}

/// The instruction `x` was taken from a block of the stream at whose end all
/// of its arguments reach.
pub open spec fn args_reach_source(stream: Seq<(u32, Instr)>, rd: Seq<Set<Seq<char>>>, x: Instr) -> bool {
    exists|q: int| #![trigger stream[q]] 0 <= q < stream.len() && stream[q].1 == x
        && forall|j: int| #![trigger value_args(x)[j]] 0 <= j < value_args(x).len()
            ==> rd[stream[q].0 as int].contains(value_args(x)[j])
}

proof fn lemma_defined_before_prefix(h0: Seq<Instr>, h: Seq<Instr>, i: int)
    requires
        0 <= i < h0.len() <= h.len(),
        forall|k: int| 0 <= k < h0.len() ==> h[k] == h0[k],
        args_defined_before(h0, i),
    ensures
        args_defined_before(h, i),
{
    assert(h[i] == h0[i]);
    assert forall|j: int| #![trigger value_args(h[i])[j]] 0 <= j < value_args(h[i]).len()
        implies assigned_before(h, i, value_args(h[i])[j]) by {
        let x = value_args(h[i])[j];
        assert(value_args(h0[i])[j] == x);
        assert(assigned_before(h0, i, x));
        let k = choose|k: int| #![trigger h0[k]] 0 <= k < i && dest_of(h0[k]) == Some(x);
        assert(h[k] == h0[k]);
    }
}

proof fn lemma_reach_source_extend(p: Seq<(u32, Instr)>, stream: Seq<(u32, Instr)>, rd: Seq<Set<Seq<char>>>, x: Instr)
    requires
        p.len() <= stream.len(),
        forall|q: int| 0 <= q < p.len() ==> stream[q] == p[q],
        args_reach_source(p, rd, x),
    ensures
        args_reach_source(stream, rd, x),
{
    let q = choose|q: int| #![trigger p[q]] 0 <= q < p.len() && p[q].1 == x
        && forall|j: int| #![trigger value_args(x)[j]] 0 <= j < value_args(x).len() ==> rd[p[q].0 as int].contains(value_args(x)[j]);
    assert(stream[q] == p[q]);
}

/// Every hoisted value operation is loop-invariant: each of its arguments,
/// every one of them, is assigned by an instruction hoisted before it, and
/// all of them reach the end of the block the operation was taken from.
pub proof fn lemma_hoisted_args_invariant(stream: Seq<(u32, Instr)>, rd: Seq<Set<Seq<char>>>)
    ensures
        forall|i: int| 0 <= i < hoist(stream, rd).0.len() ==> args_defined_before(hoist(stream, rd).0, i)
            && args_reach_source(stream, rd, #[trigger] hoist(stream, rd).0[i]),
    decreases stream.len(),
{
    if stream.len() > 0 {
        let p = stream.drop_last();
        lemma_hoisted_args_invariant(p, rd);
        lemma_hoist_defs(p, rd);
        let h0 = hoist(p, rd).0;
        let d0 = hoist(p, rd).1;
        let h = hoist(stream, rd).0;
        let blk = stream.last().0;
        let x = stream.last().1;
        assert(h.len() >= h0.len());
        assert forall|k: int| 0 <= k < h0.len() implies h[k] == h0[k] by {
            if h.len() > h0.len() {
                assert(h == h0.push(x));
            } else {
                assert(h == h0);
            }
        }
        assert forall|q: int| 0 <= q < p.len() implies stream[q] == p[q] by {}
        assert forall|i: int| 0 <= i < h.len() implies args_defined_before(h, i)
            && args_reach_source(stream, rd, #[trigger] h[i]) by {
            if i < h0.len() {
                assert(args_defined_before(h0, i) && args_reach_source(p, rd, h0[i]));
                lemma_defined_before_prefix(h0, h, i);
                lemma_reach_source_extend(p, stream, rd, h0[i]);
            } else {
                assert(h == h0.push(x));
                assert(h[i] == x);
                let q = stream.len() - 1;
                assert(stream[q].1 == x && stream[q].0 == blk);
                match x {
                    Instr::ValOp { args: Some(a), funcs: None, .. } => {
                        assert(args_invariant(a, rd[blk as int], d0));
                        assert(value_args(x) == a);
                        assert forall|j: int| #![trigger value_args(h[i])[j]] 0 <= j < value_args(h[i]).len()
                            implies assigned_before(h, i, value_args(h[i])[j]) by {
                            assert(value_args(h[i])[j] == a[j]);
                            assert(d0.contains(a[j]));
                            let k = choose|k: int| #![trigger h0[k]] 0 <= k < h0.len() && dest_of(h0[k]) == Some(a[j]);
                            assert(h[k] == h0[k]);
                        }
                        assert forall|j: int| #![trigger value_args(x)[j]] 0 <= j < value_args(x).len()
                            implies rd[stream[q].0 as int].contains(value_args(x)[j]) by {
                            assert(rd[blk as int].contains(a[j]));
                        }
                    },
                    _ => {
                        assert(value_args(x) =~= Seq::<Seq<char>>::empty());
                    },
                }
            }
        }
    }
}

/// Each instruction of the loop's stream is an instruction of a block of
/// the loop body.
pub proof fn lemma_loop_stream_from_body(bs: Seq<Seq<Instr>>, body: Set<u32>, k: int)
    requires
        0 <= k <= bs.len(),
        bs.len() <= u32::MAX,
    ensures
        forall|j: int| 0 <= j < loop_stream(bs, body, k).len() ==> {
            let (b, x) = #[trigger] loop_stream(bs, body, k)[j];
            &&& body.contains(b)
            &&& b < k
            &&& bs[b as int].contains(x)
        },
    decreases k,
{
    if k > 0 {
        lemma_loop_stream_from_body(bs, body, k - 1);
        let prev = loop_stream(bs, body, k - 1);
        let st = loop_stream(bs, body, k);
        assert forall|j: int| 0 <= j < st.len() implies {
            let (b, x) = #[trigger] st[j];
            &&& body.contains(b)
            &&& b < k
            &&& bs[b as int].contains(x)
        } by {
            if j < prev.len() {
                assert(st[j] == prev[j]);
            } else {
                let t = bs[k - 1].map_values(|i: Instr| ((k - 1) as u32, i));
                assert(st[j] == t[j - prev.len()]);
                assert(bs[k - 1][j - prev.len()] == st[j].1);
            }
        }
    }
}

/// Loop-invariant code motion hoists only constants and value operations
/// with arguments and no functions, each an instruction of a block of the
/// loop's body.
pub proof fn lemma_hoisted_from_body(ctx: FuncContext, tail: u32)
    requires
        ctx.well_formed(),
        closes_loop(ctx, tail),
    ensures
        forall|i: int| 0 <= i < hoisted(ctx, tail).len() ==> {
            let x = #[trigger] hoisted(ctx, tail)[i];
            &&& (x is Constant || x matches Instr::ValOp { args: Some(_), funcs: None, .. })
            &&& exists|b: u32| #![trigger loop_body(ctx.cfg_view(), tail, back_edge_of(ctx.cfg_view(), ctx.dominator_sets(), tail)->0).contains(b)]
                loop_body(ctx.cfg_view(), tail, back_edge_of(ctx.cfg_view(), ctx.dominator_sets(), tail)->0).contains(b)
                && b < ctx.block_seq().len() && block_models(ctx.block_seq())[b as int].contains(x)
        },
{
    let bs = block_models(ctx.block_seq());
    let c = ctx.cfg_view();
    let body = loop_body(c, tail, back_edge_of(c, ctx.dominator_sets(), tail)->0);
    let stream = loop_stream(bs, body, bs.len() as int);
    let rd = reaching_sets(c, bs, ctx.arg_names());
    lemma_hoist_kinds(stream, rd);
    lemma_loop_stream_from_body(bs, body, bs.len() as int);
    assert forall|i: int| 0 <= i < hoisted(ctx, tail).len() implies {
        let x = #[trigger] hoisted(ctx, tail)[i];
        &&& (x is Constant || x matches Instr::ValOp { args: Some(_), funcs: None, .. })
        &&& exists|b: u32| #![trigger body.contains(b)] body.contains(b) && b < ctx.block_seq().len() && bs[b as int].contains(x)
    } by {
        let x = hoisted(ctx, tail)[i];
        assert(hoist(stream, rd).0[i] == x);
        let j = choose|j: int| 0 <= j < stream.len() && stream[j].1 == x;
        let (b, y) = stream[j];
        assert(body.contains(b));
    }
}

/// All arguments of `x` reach the end of block `b` of the function.
pub open spec fn args_reach_block(ctx: FuncContext, b: u32, x: Instr) -> bool {
    let rd = reaching_sets(ctx.cfg_view(), block_models(ctx.block_seq()), ctx.arg_names());
    forall|j: int| #![trigger value_args(x)[j]] 0 <= j < value_args(x).len() ==> rd[b as int].contains(value_args(x)[j])
}

/// Loop-invariant code motion hoists only loop-invariant value operations:
/// each argument of a hoisted value operation (every one, not only the
/// first) is assigned by an instruction hoisted before it, and all its
/// arguments reach the end of a block of the loop's body that holds the
/// operation.
pub proof fn lemma_hoisted_loop_invariant(ctx: FuncContext, tail: u32)
    requires
        ctx.well_formed(),
        closes_loop(ctx, tail),
    ensures
        forall|i: int| 0 <= i < hoisted(ctx, tail).len() ==> args_defined_before(hoisted(ctx, tail), i)
            && exists|b: u32| #![trigger loop_body(ctx.cfg_view(), tail, back_edge_of(ctx.cfg_view(), ctx.dominator_sets(), tail)->0).contains(b)]
                loop_body(ctx.cfg_view(), tail, back_edge_of(ctx.cfg_view(), ctx.dominator_sets(), tail)->0).contains(b)
                && b < ctx.block_seq().len() && block_models(ctx.block_seq())[b as int].contains(#[trigger] hoisted(ctx, tail)[i])
                && args_reach_block(ctx, b, hoisted(ctx, tail)[i]),
{
    let bs = block_models(ctx.block_seq());
    let c = ctx.cfg_view();
    let body = loop_body(c, tail, back_edge_of(c, ctx.dominator_sets(), tail)->0);
    let stream = loop_stream(bs, body, bs.len() as int);
    let rd = reaching_sets(c, bs, ctx.arg_names());
    lemma_hoisted_args_invariant(stream, rd);
    lemma_loop_stream_from_body(bs, body, bs.len() as int);
    let h = hoisted(ctx, tail);
    assert(h == hoist(stream, rd).0);
    assert forall|i: int| 0 <= i < h.len() implies args_defined_before(h, i)
        && exists|b: u32| #![trigger body.contains(b)] body.contains(b) && b < ctx.block_seq().len()
            && bs[b as int].contains(#[trigger] h[i]) && args_reach_block(ctx, b, h[i]) by {
        let x = h[i];
        assert(args_reach_source(stream, rd, hoist(stream, rd).0[i]));
        let q = choose|q: int| #![trigger stream[q]] 0 <= q < stream.len() && stream[q].1 == x
            && forall|j: int| #![trigger value_args(x)[j]] 0 <= j < value_args(x).len()
                ==> rd[stream[q].0 as int].contains(value_args(x)[j]);
        let (b, y) = stream[q];
        assert(body.contains(b) && b < bs.len() && bs[b as int].contains(y));
        assert(args_reach_block(ctx, b, x));
    }
}

/// With no hoisted block, the new program is the blocks' instructions one
/// after the other.
pub proof fn lemma_program_without_preheaders(bs: Seq<Seq<Instr>>, k: int)
    requires
        0 <= k <= bs.len(),
        bs.len() <= u32::MAX,
    ensures
        program_upto(bs, Map::empty(), k) == crate::bril::concat_blocks(bs.take(k)),
    decreases k,
{
    if k > 0 {
        lemma_program_without_preheaders(bs, k - 1);
        assert(bs.take(k).drop_last() == bs.take(k - 1));
        assert(bs.take(k).last() == bs[k - 1]);
        assert(program_upto(bs, Map::empty(), k) =~= program_upto(bs, Map::empty(), k - 1) + bs[k - 1]);
    } else {
        assert(bs.take(0) =~= Seq::<Seq<Instr>>::empty());
    }
}

/// Where nothing was hoisted, the new program of a function read by `init`
/// is the function's own instructions.
pub proof fn lemma_no_hoist_keeps_function(s: Seq<Instr>)
    requires
        crate::bril::split_blocks(s).len() <= u32::MAX,
    ensures
        program_upto(crate::bril::split_blocks(s), Map::empty(), crate::bril::split_blocks(s).len() as int) == s,
{
    let bs = crate::bril::split_blocks(s);
    lemma_program_without_preheaders(bs, bs.len() as int);
    assert(bs.take(bs.len() as int) == bs);
    crate::bril::lemma_blocks_cover_instructions(s);
}

/// The number of blocks that close a loop.
pub open spec fn loop_count(ctx: FuncContext) -> nat {
    Set::new(|b: u32| closes_loop(ctx, b)).len()
}

/// The instructions of block `b`, each paired with `b`.
pub open spec fn tagged(bs: Seq<Seq<Instr>>, b: int) -> Seq<(u32, Instr)> {
    bs[b].map_values(|i: Instr| (b as u32, i))
}

/// The instructions hoisted out of the loop whose body is `loop_blocks`.
fn hoist_loop(ctx: &FuncContext, loop_blocks: &HashSet<u32>, reaching: &Vec<Vec<String>>) -> (r: Vec<InsnType>)
    requires
        ctx.well_formed(),
        reaching.len() == ctx.block_seq().len(),
    ensures
        insns_view(r@) == hoist(
            loop_stream(block_models(ctx.block_seq()), loop_blocks@, ctx.block_seq().len() as int),
            sets_view(reaching@),
        ).0,
{
    let ghost bs = block_models(ctx.block_seq());
    let ghost rd = sets_view(reaching@);
    let ghost body = loop_blocks@;
    let n = ctx.num_blocks();
    let mut inv_insns: Vec<InsnType> = Vec::new();
    let mut inv_defs: Vec<String> = Vec::new();
    assert(name_set(inv_defs@) =~= Set::<Seq<char>>::empty());
    assert(insns_view(inv_insns@) =~= Seq::<Instr>::empty());
    let mut block: usize = 0;
    while block < n
        invariant
            n == ctx.block_seq().len(),
            bs == block_models(ctx.block_seq()),
            n <= u32::MAX,
            reaching.len() == n,
            rd == sets_view(reaching@),
            body == loop_blocks@,
            block <= n,
            distinct(inv_defs@),
            (insns_view(inv_insns@), name_set(inv_defs@)) == hoist(loop_stream(bs, body, block as int), rd),
        decreases n - block,
    {
        if loop_blocks.contains(&(block as u32)) {
            let instrs = ctx.block_instructions(block);
            let ghost base = loop_stream(bs, body, block as int);
            let ghost tg = tagged(bs, block as int);
            let mut j: usize = 0;
            while j < instrs.len()
                invariant
                    block < n,
                    n <= u32::MAX,
                    reaching.len() == n,
                    rd == sets_view(reaching@),
                    bs[block as int] == insns_view(instrs@),
                    tg == tagged(bs, block as int),
                    j <= instrs.len(),
                    distinct(inv_defs@),
                    (insns_view(inv_insns@), name_set(inv_defs@)) == hoist(base + tg.take(j as int), rd),
                decreases instrs.len() - j,
            {
                let insn = &instrs[j];
                let ghost s0 = base + tg.take(j as int);
                let ghost s1 = base + tg.take(j as int + 1);
                assert(s1 == s0.push(tg[j as int]));
                assert(s1.drop_last() == s0);
                assert(tg[j as int] == (block as u32, insn@));
                assert(rd[block as int] == name_set(reaching@[block as int]@));
                let ghost before = (insns_view(inv_insns@), name_set(inv_defs@));
                match insn {
                    InsnType::Constant { dest, .. } => {
                        add_name(&mut inv_defs, dest);
                        let ghost prev = inv_insns@;
                        inv_insns.push(insn.duplicate());
                        assert(insns_view(inv_insns@) =~= insns_view(prev).push(insn@));
                    },
                    InsnType::ValOp { dest, args: Some(argos), funcs: None, .. } => {
                        let mut check = true;
                        let mut k: usize = 0;
                        while check && k < argos.len()
                            invariant
                                block < n,
                                reaching.len() == n,
                                rd == sets_view(reaching@),
                                k <= argos.len(),
                                check == forall|m: int| 0 <= m < k ==> rd[block as int].contains(#[trigger] strs_view(argos@)[m])
                                    && name_set(inv_defs@).contains(strs_view(argos@)[m]),
                                !check ==> !args_invariant(strs_view(argos@), rd[block as int], name_set(inv_defs@)),
                            decreases argos.len() - k,
                        {
                            let arg = &argos[k];
                            assert(strs_view(argos@)[k as int] == arg@);
                            if !has_name(&reaching[block], arg) || !has_name(&inv_defs, arg) {
                                check = false;
                            }
                            k += 1;
                        }
                        assert(check == args_invariant(strs_view(argos@), rd[block as int], name_set(inv_defs@)));
                        if check {
                            add_name(&mut inv_defs, dest);
                            let ghost prev = inv_insns@;
                            inv_insns.push(insn.duplicate());
                            assert(insns_view(inv_insns@) =~= insns_view(prev).push(insn@));
                        }
                    },
                    _ => {},
                }
                j += 1;
            }
            assert(tg.take(instrs.len() as int) == tg);
            assert(loop_stream(bs, body, block as int + 1) == base + tg);
        } else {
            assert(loop_stream(bs, body, block as int + 1) =~= loop_stream(bs, body, block as int));
        }
        block += 1;
    }
    inv_insns
}

/// Loop-invariant code motion over one function: for each loop, the
/// instructions hoisted into a block placed before the loop's block.
pub struct Licm<'a> {
    func_ctx: &'a FuncContext,
    preheaders: HashMap<u32, Block>,
}

impl<'a> Licm<'a> {
    /// A pass over `orig` that has hoisted nothing yet.
    pub fn new(orig: &'a FuncContext) -> (r: Self)
        ensures
            r.context() == *orig,
            r.preheader_map() == Map::<u32, Block>::empty(),
    {
        Licm { func_ctx: orig, preheaders: HashMap::new() }
    }

    /// The function the pass works on.
    pub closed spec fn context(self) -> FuncContext {
        *self.func_ctx
    }

    /// The hoisted blocks, by the index of the block they come before.
    pub closed spec fn preheader_map(self) -> Map<u32, Block> {
        self.preheaders@
    }

    /// The names that reach the end of `block` from `inputs`: those of
    /// `inputs` (less those the block assigns again) and those it assigns.
    pub fn reaching_defs_transfer(block: &Block, inputs: &Vec<String>) -> (r: Vec<String>)
        ensures
            distinct(r@),
            name_set(r@) == defined_transfer(insns_view(block.instructions@), name_set(inputs@)),
    {
        let ghost bi = insns_view(block.instructions@);
        let mut killed: Vec<String> = Vec::new();
        let mut defs: Vec<String> = Vec::new();
        assert(name_set(killed@) =~= Set::<Seq<char>>::empty());
        assert(name_set(defs@) =~= Set::<Seq<char>>::empty());
        let mut i: usize = 0;
        while i < block.instructions.len()
            invariant
                i <= block.instructions.len(),
                bi == insns_view(block.instructions@),
                distinct(killed@),
                distinct(defs@),
                name_set(defs@) == Set::new(|x: Seq<char>| exists|k: int| 0 <= k < i && dest_of(#[trigger] bi[k]) == Some(x)),
                name_set(killed@).subset_of(name_set(inputs@)),
                name_set(killed@).subset_of(name_set(defs@)),
            decreases block.instructions.len() - i,
        {
            let insn = &block.instructions[i];
            assert(bi[i as int] == insn@);
            let ghost before = name_set(defs@);
            match insn {
                InsnType::Constant { dest, .. } => {
                    if has_name(inputs, dest) {
                        add_name(&mut killed, dest);
                    }
                    add_name(&mut defs, dest);
                },
                InsnType::ValOp { dest, .. } => {
                    if has_name(inputs, dest) {
                        add_name(&mut killed, dest);
                    }
                    add_name(&mut defs, dest);
                },
                _ => {},
            }
            assert(name_set(defs@) =~= Set::new(|x: Seq<char>| exists|k: int| 0 <= k < i + 1 && dest_of(#[trigger] bi[k]) == Some(x))) by {
                assert forall|x: Seq<char>| name_set(defs@).contains(x) implies exists|k: int| 0 <= k < i + 1 && dest_of(#[trigger] bi[k]) == Some(x) by {
                    if !before.contains(x) {
                        assert(dest_of(bi[i as int]) == Some(x));
                    }
                }
            }
            i += 1;
        }
        proof {
            lemma_defined_names(bi);
            assert(name_set(defs@) =~= defined_names(bi));
        }
        let diff = difference_names(inputs, &killed);
        let res = union_names(&defs, &diff);
        assert(name_set(res@) =~= name_set(inputs@).union(defined_names(bi))) by {
            assert forall|x: Seq<char>| name_set(inputs@).contains(x) && !name_set(diff@).contains(x)
                implies defined_names(bi).contains(x) by {
                assert(name_set(killed@).contains(x));
            }
        }
        res
    }

    /// Hoists, for each block that closes a loop, the loop-invariant
    /// instructions of the loop into a new block placed before it.
    pub fn do_licm(&mut self)
        requires
            old(self).context().well_formed(),
            old(self).context().block_seq().len() + loop_count(old(self).context()) <= u32::MAX,
        ensures
            final(self).context() == old(self).context(),
            forall|b: u32| #[trigger] final(self).preheader_map().contains_key(b) <==> (old(self).preheader_map().contains_key(b)
                || closes_loop(old(self).context(), b)),
            forall|b: u32| #[trigger] closes_loop(old(self).context(), b) ==> insns_view(final(self).preheader_map()[b].instructions@)
                == hoisted(old(self).context(), b),
            forall|b: u32| #[trigger] closes_loop(old(self).context(), b) ==> final(self).preheader_map()[b].name
                == preheader_name(old(self).context(), b),
            forall|b: u32| !closes_loop(old(self).context(), b) && #[trigger] old(self).preheader_map().contains_key(b)
                ==> final(self).preheader_map()[b] == old(self).preheader_map()[b],
    {
        let ghost ctx = *self.func_ctx;
        let n = self.func_ctx.num_blocks();
        let ghost c = ctx.cfg_view();
        let ghost doms = ctx.dominator_sets();
        let ghost tails = Set::new(|b: u32| closes_loop(ctx, b));
        let ghost old_map = self.preheaders@;
        let mut prehead_ctr: u32 = n as u32;
        let loops = self.func_ctx.find_natural_loops();
        let reaching_defs = self.func_ctx.workflow();
        let ghost mut seen: Set<u32> = Set::empty();
        proof {
            vstd::set_lib::range_set_properties::<u32>(0, n as u32);
            assert(tails.subset_of(Set::<u32>::range(0, n as u32)));
            vstd::set_lib::lemma_len_subset(tails, Set::<u32>::range(0, n as u32));
        }
        let mut top: usize = 0;
        while top < n
            invariant
                ctx == *self.func_ctx,
                ctx.well_formed(),
                n == ctx.block_seq().len(),
                c == ctx.cfg_view(),
                doms == ctx.dominator_sets(),
                n + loop_count(ctx) <= u32::MAX,
                tails == Set::new(|b: u32| closes_loop(ctx, b)),
                tails.finite(),
                top <= n,
                reaching_defs.len() == n,
                sets_view(reaching_defs@) == reaching_sets(c, block_models(ctx.block_seq()), ctx.arg_names()),
                forall|b: u32| #[trigger] loops@.contains_key(b) <==> (b < n && back_edge_of(c, doms, b) is Some),
                forall|b: u32| #[trigger] loops@.contains_key(b) ==> loops@[b]@ == loop_body(c, b, back_edge_of(c, doms, b)->0),
                seen == tails.filter(|b: u32| b < top),
                prehead_ctr == n + seen.len(),
                forall|b: u32| #[trigger] self.preheaders@.contains_key(b) <==> (old_map.contains_key(b) || seen.contains(b)),
                forall|b: u32| #[trigger] seen.contains(b) ==> insns_view(self.preheaders@[b].instructions@) == hoisted(ctx, b),
                forall|b: u32| #[trigger] seen.contains(b) ==> self.preheaders@[b].name == preheader_name(ctx, b),
                forall|b: u32| !seen.contains(b) && #[trigger] old_map.contains_key(b) ==> self.preheaders@[b] == old_map[b],
            decreases n - top,
        {
            let t = top as u32;
            match loops.get(&t) {
                Some(loop_blocks) => {
                    let inv_insns = hoist_loop(self.func_ctx, loop_blocks, &reaching_defs);
                    proof {
                        assert(closes_loop(ctx, t));
                        assert(insns_view(inv_insns@) == hoisted(ctx, t));
                        assert(seen.insert(t) =~= tails.filter(|b: u32| b < top + 1));
                        vstd::set_lib::lemma_len_subset(seen.insert(t), tails);
                        assert(!seen.contains(t));
                        assert(seen =~= Set::new(|x: u32| closes_loop(ctx, x) && x < t));
                    }
                    let prehead = Block { name: BlockName(prehead_ctr), instructions: inv_insns };
                    self.preheaders.insert(t, prehead);
                    prehead_ctr += 1;
                    proof {
                        seen = seen.insert(t);
                    }
                },
                None => {
                    proof {
                        assert(!closes_loop(ctx, t));
                        assert(seen =~= tails.filter(|b: u32| b < top + 1));
                    }
                },
            }
            top += 1;
        }
        proof {
            assert(seen =~= tails);
            assert forall|b: u32| #[trigger] closes_loop(ctx, b) implies insns_view(self.preheaders@[b].instructions@)
                == hoisted(ctx, b) && self.preheaders@[b].name == preheader_name(ctx, b) by {
                assert(tails.contains(b));
                assert(seen.contains(b));
            }
        }
    }

    /// The new instructions of the function: each block, preceded by its
    /// hoisted block where it has one.
    pub fn construct_new_program(&self) -> (r: Vec<InsnType>)
        requires
            self.context().block_seq().len() <= u32::MAX,
        ensures
            insns_view(r@) == program_upto(
                block_models(self.context().block_seq()),
                self.preheader_map(),
                self.context().block_seq().len() as int,
            ),
    {
        let ghost ctx = *self.func_ctx;
        let ghost bs = block_models(ctx.block_seq());
        let n = self.func_ctx.num_blocks();
        let mut result: Vec<InsnType> = Vec::new();
        assert(insns_view(result@) =~= Seq::<Instr>::empty());
        let mut idx: usize = 0;
        while idx < n
            invariant
                ctx == *self.func_ctx,
                n == ctx.block_seq().len(),
                n <= u32::MAX,
                bs == block_models(ctx.block_seq()),
                idx <= n,
                insns_view(result@) == program_upto(bs, self.preheaders@, idx as int),
            decreases n - idx,
        {
            let ghost r0 = insns_view(result@);
            match self.preheaders.get(&(idx as u32)) {
                Some(pre) => {
                    extend_insns(&mut result, &pre.instructions);
                },
                None => {},
            }
            extend_insns(&mut result, self.func_ctx.block_instructions(idx));
            assert(insns_view(result@) =~= program_upto(bs, self.preheaders@, idx as int + 1));
            idx += 1;
        }
        result
    }

    /// The names of `acc` together with those of `el`.
    pub fn reaching_defs_merge(acc: &Vec<String>, el: &Vec<String>) -> (r: Vec<String>)
        ensures
            distinct(r@),
            name_set(r@) == name_set(acc@).union(name_set(el@)),
    {
        union_names(acc, el)
    }

    /// The starting input and output sets of the blocks: empty, except the
    /// input of block 0, which holds the function's arguments.
    pub fn reaching_defs_init(fn_args: &Option<Vec<String>>, blocks: &Vec<Block>) -> (r: (Vec<Vec<String>>, Vec<Vec<String>>))
        ensures
            sets_view(r.0@) == rd_init_inputs(opt_strs_view(*fn_args), blocks.len() as int),
            sets_view(r.1@) == Seq::new(blocks.len() as nat, |b: int| Set::<Seq<char>>::empty()),
            forall|b: int| 0 <= b < r.0.len() ==> distinct(#[trigger] r.0@[b]@),
            forall|b: int| 0 <= b < r.1.len() ==> distinct(#[trigger] r.1@[b]@),
    {
        let mut inputs: Vec<Vec<String>> = Vec::new();
        let mut outputs: Vec<Vec<String>> = Vec::new();
        let mut idx: usize = 0;
        while idx < blocks.len()
            invariant
                idx <= blocks.len(),
                sets_view(inputs@) == Seq::new(idx as nat, |b: int| Set::<Seq<char>>::empty()),
                sets_view(outputs@) == Seq::new(idx as nat, |b: int| Set::<Seq<char>>::empty()),
                forall|b: int| 0 <= b < inputs.len() ==> distinct(#[trigger] inputs@[b]@),
                forall|b: int| 0 <= b < outputs.len() ==> distinct(#[trigger] outputs@[b]@),
            decreases blocks.len() - idx,
        {
            let e1: Vec<String> = Vec::new();
            let e2: Vec<String> = Vec::new();
            assert(name_set(e1@) =~= Set::<Seq<char>>::empty());
            assert(name_set(e2@) =~= Set::<Seq<char>>::empty());
            let ghost pi = inputs@;
            let ghost po = outputs@;
            inputs.push(e1);
            outputs.push(e2);
            assert(inputs@ == pi.push(e1));
            assert(outputs@ == po.push(e2));
            assert(sets_view(inputs@) =~= sets_view(pi).push(name_set(e1@)));
            assert(sets_view(outputs@) =~= sets_view(po).push(name_set(e2@)));
            assert(sets_view(inputs@) =~= Seq::new(idx as nat + 1, |b: int| Set::<Seq<char>>::empty()));
            assert(sets_view(outputs@) =~= Seq::new(idx as nat + 1, |b: int| Set::<Seq<char>>::empty()));
            idx += 1;
        }
        let ghost args = opt_strs_view(*fn_args);
        match fn_args {
            Some(argos) => {
                let a = names_from(argos);
                let ghost pi = inputs@;
                if inputs.len() > 0 {
                    inputs.set(0, a);
                    assert(sets_view(inputs@) =~= sets_view(pi).update(0, name_set(a@)));
                } else {
                    inputs.push(a);
                    assert(sets_view(inputs@) =~= sets_view(pi).push(name_set(a@)));
                }
            },
            None => {},
        }
        assert(sets_view(inputs@) =~= rd_init_inputs(args, blocks.len() as int));
        (inputs, outputs)
    }
}

} // verus!
