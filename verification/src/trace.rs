use vstd::prelude::*;
use crate::bril::{copy_strs, str_eq, strs_view};

verus! {

/// A Bril instruction as the trace pass reads it.
#[derive(Clone)]
#[allow(inconsistent_fields)]
pub enum InsnType {
    Label { label: String },
    ValOp { args: Vec<String>, dest: String, op: ValOps, insn_type: String, funcs: Vec<String> },
    Effect { funcs: Vec<String>, args: Vec<String>, labels: Vec<String>, op: EffectOps },
    Constant { dest: String, op: ConstOp, insn_type: String, value: Value },
}

/// The value of a constant.
#[derive(PartialEq, Eq, Structural, Clone, Copy)]
pub enum Value {
    Int(i32),
    Bools,
}

/// A boolean literal.
#[derive(PartialEq, Eq, Structural, Clone, Copy)]
pub enum Bools {
    True,
    False,
}

/// The operations that compute a value.
#[derive(PartialEq, Eq, Structural, Clone, Copy)]
pub enum ValOps {
    Add,
    Sub,
    Mul,
    Div,
    Lt,
    Gt,
    Le,
    Ge,
    Eq,
    Not,
    And,
    Or,
    Id,
    Call,
}

/// The operations run for their effect.
#[derive(PartialEq, Eq, Structural, Clone, Copy)]
pub enum EffectOps {
    Jmp,
    Branch,
    Call,
    Return,
    Print,
    Speculate,
    Guard,
    Commit,
    Nop,
}

/// The operation of a constant.
#[derive(PartialEq, Eq, Structural, Clone, Copy)]
pub enum ConstOp {
    Const,
}

/// A function argument: its name and type.
pub struct Argument {
    pub name: String,
    pub arg_type: String,
}

/// A function.
pub struct Function {
    pub name: String,
    pub args: Vec<Argument>,
    pub instrs: Vec<InsnType>,
    pub func_type: Option<String>,
}

/// A whole program.
pub struct Program {
    pub functions: Vec<Function>,
}

/// The mathematical model of an instruction of a trace.
#[allow(inconsistent_fields)]
pub enum TraceInstr {
    Label { label: Seq<char> },
    ValOp { args: Seq<Seq<char>>, dest: Seq<char>, op: ValOps, insn_type: Seq<char>, funcs: Seq<Seq<char>> },
    Effect { funcs: Seq<Seq<char>>, args: Seq<Seq<char>>, labels: Seq<Seq<char>>, op: EffectOps },
    Constant { dest: Seq<char>, op: ConstOp, insn_type: Seq<char>, value: Value },
}

impl View for InsnType {
    type V = TraceInstr;

    open spec fn view(&self) -> TraceInstr {
        match self {
            InsnType::Label { label } => TraceInstr::Label { label: label@ },
            InsnType::ValOp { args, dest, op, insn_type, funcs } => TraceInstr::ValOp {
                args: strs_view(args@),
                dest: dest@,
                op: *op,
                insn_type: insn_type@,
                funcs: strs_view(funcs@),
            },
            InsnType::Effect { funcs, args, labels, op } => TraceInstr::Effect {
                funcs: strs_view(funcs@),
                args: strs_view(args@),
                labels: strs_view(labels@),
                op: *op,
            },
            InsnType::Constant { dest, op, insn_type, value } => TraceInstr::Constant {
                dest: dest@,
                op: *op,
                insn_type: insn_type@,
                value: *value,
            },
        }
    }
}

/// The models of a list of instructions.
pub open spec fn trace_view(v: Seq<InsnType>) -> Seq<TraceInstr> {
    v.map_values(|i: InsnType| i@)
}

/// An effect instruction with the operation `op` and nothing else.
pub open spec fn marker(op: EffectOps) -> TraceInstr {
    TraceInstr::Effect { funcs: Seq::empty(), args: Seq::empty(), labels: Seq::empty(), op }
}

/// Reading the trace in order: the instructions written so far, and
/// whether a speculation is open. Each guard is preceded by a `speculate`
/// (and, where a speculation is open, by a `commit` before that); inside a
/// speculation, each print is preceded by a `commit` and followed by a new
/// `speculate`.
pub open spec fn speculation_state(s: Seq<TraceInstr>) -> (Seq<TraceInstr>, bool)
    decreases s.len(),
{
    if s.len() == 0 {
        (Seq::empty(), false)
    } else {
        let (out, in_spec) = speculation_state(s.drop_last());
        let x = s.last();
        match x {
            TraceInstr::Effect { op, .. } => {
                if op == EffectOps::Guard {
                    (
                        (if in_spec { out.push(marker(EffectOps::Commit)) } else { out }).push(marker(EffectOps::Speculate)).push(x),
                        true,
                    )
                } else if op == EffectOps::Print && in_spec {
                    (out.push(marker(EffectOps::Commit)).push(x).push(marker(EffectOps::Speculate)), true)
                } else {
                    (out.push(x), in_spec)
                }
            },
            _ => (out.push(x), in_spec),
        }
    }
}

/// The trace with its speculation markers: where a speculation is still
/// open at the end, a `commit` goes before the last instruction.
pub open spec fn speculated(s: Seq<TraceInstr>) -> Seq<TraceInstr> {
    let (out, in_spec) = speculation_state(s);
    if in_spec {
        out.insert(out.len() - 1, marker(EffectOps::Commit))
    } else {
        out
    }
}

/// Reading a trace writes at least as many instructions as it reads, and
/// an open speculation follows a written instruction.
pub proof fn lemma_open_speculation_nonempty(s: Seq<TraceInstr>)
    ensures
        speculation_state(s).1 ==> speculation_state(s).0.len() > 0,
        speculation_state(s).0.len() >= s.len(),
    decreases s.len(),
{
    if s.len() > 0 {
        lemma_open_speculation_nonempty(s.drop_last());
    }
}

/// An effect instruction with the operation `op` and nothing else.
pub fn make_marker(op: EffectOps) -> (r: InsnType)
    ensures
        r@ == marker(op),
{
    let r = InsnType::Effect { op, labels: Vec::new(), args: Vec::new(), funcs: Vec::new() };
    assert(strs_view(Seq::<String>::empty()) =~= Seq::<Seq<char>>::empty());
    r
}

impl InsnType {
    /// A copy of the instruction, with the same model.
    pub fn duplicate(&self) -> (r: InsnType)
        ensures
            r@ == self@,
    {
        match self {
            InsnType::Label { label } => InsnType::Label { label: label.clone() },
            InsnType::ValOp { args, dest, op, insn_type, funcs } => InsnType::ValOp {
                args: copy_strs(args),
                dest: dest.clone(),
                op: *op,
                insn_type: insn_type.clone(),
                funcs: copy_strs(funcs),
            },
            InsnType::Effect { funcs, args, labels, op } => InsnType::Effect {
                funcs: copy_strs(funcs),
                args: copy_strs(args),
                labels: copy_strs(labels),
                op: *op,
            },
            InsnType::Constant { dest, op, insn_type, value } => InsnType::Constant {
                dest: dest.clone(),
                op: *op,
                insn_type: insn_type.clone(),
                value: *value,
            },
        }
    }
}

/// The trace with speculation markers added: a `speculate` before each
/// guard, a `commit` before each later guard and around each print inside a
/// speculation, and a final `commit` before the last instruction where a
/// speculation is still open.
pub fn speculate_trace(trace: &Vec<InsnType>) -> (r: Vec<InsnType>)
    ensures
        trace_view(r@) == speculated(trace_view(trace@)),
{
    let ghost s = trace_view(trace@);
    let mut modified_insns: Vec<InsnType> = Vec::new();
    let mut in_spec = false;
    let mut i: usize = 0;
    assert(trace_view(modified_insns@) =~= Seq::<TraceInstr>::empty());
    while i < trace.len()
        invariant
            i <= trace.len(),
            s == trace_view(trace@),
            (trace_view(modified_insns@), in_spec) == speculation_state(s.take(i as int)),
        decreases trace.len() - i,
    {
        let instruction = &trace[i];
        let ghost out0 = trace_view(modified_insns@);
        assert(s.take(i as int + 1).drop_last() == s.take(i as int));
        assert(s.take(i as int + 1).last() == instruction@);
        match instruction {
            InsnType::Effect { op, .. } => {
                if *op == EffectOps::Guard {
                    if in_spec {
                        modified_insns.push(make_marker(EffectOps::Commit));
                    }
                    modified_insns.push(make_marker(EffectOps::Speculate));
                    in_spec = true;
                    modified_insns.push(instruction.duplicate());
                } else if *op == EffectOps::Print && in_spec {
                    modified_insns.push(make_marker(EffectOps::Commit));
                    modified_insns.push(instruction.duplicate());
                    modified_insns.push(make_marker(EffectOps::Speculate));
                } else {
                    modified_insns.push(instruction.duplicate());
                }
            },
            _ => modified_insns.push(instruction.duplicate()),
        }
        assert(trace_view(modified_insns@) =~= speculation_state(s.take(i as int + 1)).0);
        i += 1;
    }
    assert(s.take(trace.len() as int) == s);
    proof {
        lemma_open_speculation_nonempty(s);
    }
    if in_spec {
        let ghost out0 = trace_view(modified_insns@);
        let pos = modified_insns.len() - 1;
        modified_insns.insert(pos, make_marker(EffectOps::Commit));
        assert(trace_view(modified_insns@) =~= out0.insert(pos as int, marker(EffectOps::Commit)));
    }
    modified_insns
}

/// Whether the instruction is a `speculate` or `commit` effect.
pub open spec fn is_marker(i: TraceInstr) -> bool {
    i matches TraceInstr::Effect { op, .. } && (op == EffectOps::Speculate || op == EffectOps::Commit)
}

/// Whether the instruction is a guard.
pub open spec fn is_guard(i: TraceInstr) -> bool {
    i matches TraceInstr::Effect { op, .. } && op == EffectOps::Guard
}

/// The instructions that are not `speculate` or `commit` effects, in order.
pub open spec fn strip_markers(s: Seq<TraceInstr>) -> Seq<TraceInstr>
    decreases s.len(),
{
    if s.len() == 0 {
        Seq::empty()
    } else if is_marker(s.last()) {
        strip_markers(s.drop_last())
    } else {
        strip_markers(s.drop_last()).push(s.last())
    }
}

/// Dropping the markers of two joined traces joins the dropped traces.
pub proof fn lemma_strip_concat(a: Seq<TraceInstr>, b: Seq<TraceInstr>)
    ensures
        strip_markers(a + b) == strip_markers(a) + strip_markers(b),
    decreases b.len(),
{
    if b.len() == 0 {
        assert(a + b == a);
        assert(strip_markers(a) + strip_markers(b) == strip_markers(a));
    } else {
        lemma_strip_concat(a, b.drop_last());
        assert((a + b).drop_last() == a + b.drop_last());
        assert((a + b).last() == b.last());
    }
}

proof fn lemma_strip_state(s: Seq<TraceInstr>)
    ensures
        strip_markers(speculation_state(s).0) == strip_markers(s),
    decreases s.len(),
{
    if s.len() > 0 {
        let p = s.drop_last();
        lemma_strip_state(p);
        let (out, in_spec) = speculation_state(p);
        let x = s.last();
        let extra = speculation_state(s).0.subrange(out.len() as int, speculation_state(s).0.len() as int);
        assert(speculation_state(s).0 == out + extra);
        lemma_strip_concat(out, extra);
        assert(strip_markers(extra) == strip_markers(seq![x])) by {
            reveal_with_fuel(strip_markers, 4);
        }
        lemma_strip_concat(p, seq![x]);
        assert(p + seq![x] == s);
    }
}

/// Adding the speculation markers adds nothing but `speculate` and `commit`
/// effects: with those removed, the speculated trace is the trace with
/// those removed.
pub proof fn lemma_speculation_only_adds_markers(s: Seq<TraceInstr>)
    ensures
        strip_markers(speculated(s)) == strip_markers(s),
{
    lemma_strip_state(s);
    lemma_open_speculation_nonempty(s);
    let (out, in_spec) = speculation_state(s);
    if in_spec {
        let k = out.len() - 1;
        assert(out.insert(k, marker(EffectOps::Commit)) == out.take(k) + seq![marker(EffectOps::Commit)] + seq![out.last()]);
        assert(out == out.take(k) + seq![out.last()]);
        lemma_strip_concat(out.take(k) + seq![marker(EffectOps::Commit)], seq![out.last()]);
        lemma_strip_concat(out.take(k), seq![marker(EffectOps::Commit)]);
        lemma_strip_concat(out.take(k), seq![out.last()]);
        assert(strip_markers(seq![marker(EffectOps::Commit)]) == Seq::<TraceInstr>::empty()) by {
            reveal_with_fuel(strip_markers, 2);
        }
    }
}

/// Each guard has a `speculate` right before it.
pub open spec fn guards_speculated(out: Seq<TraceInstr>) -> bool {
    forall|k: int| 0 <= k < out.len() && is_guard(#[trigger] out[k]) ==> k > 0 && out[k - 1] == marker(EffectOps::Speculate)
}

proof fn lemma_state_guards(s: Seq<TraceInstr>)
    ensures
        guards_speculated(speculation_state(s).0),
        s.len() > 0 ==> (is_guard(speculation_state(s).0.last()) <==> is_guard(s.last())),
    decreases s.len(),
{
    if s.len() > 0 {
        lemma_state_guards(s.drop_last());
        let (out, in_spec) = speculation_state(s.drop_last());
        let o2 = speculation_state(s).0;
        assert forall|k: int| 0 <= k < o2.len() && is_guard(#[trigger] o2[k]) implies k > 0 && o2[k - 1] == marker(EffectOps::Speculate) by {
            if k < out.len() {
                assert(o2[k] == out[k]);
                assert(out[k - 1] == o2[k - 1]);
            }
        }
    }
}

/// Every guard of the speculated trace comes right after a `speculate`,
/// where the trace does not end with a guard (a trace that does gets its
/// closing `commit` between the two).
pub proof fn lemma_guards_follow_speculate(s: Seq<TraceInstr>)
    requires
        s.len() == 0 || !is_guard(s.last()),
    ensures
        guards_speculated(speculated(s)),
{
    lemma_state_guards(s);
    lemma_open_speculation_nonempty(s);
    let (out, in_spec) = speculation_state(s);
    if in_spec {
        let k0 = out.len() - 1;
        let o2 = out.insert(k0, marker(EffectOps::Commit));
        assert forall|k: int| 0 <= k < o2.len() && is_guard(#[trigger] o2[k]) implies k > 0 && o2[k - 1] == marker(EffectOps::Speculate) by {
            if k < k0 {
                assert(o2[k] == out[k]);
                if k > 0 {
                    assert(o2[k - 1] == out[k - 1]);
                }
            } else if k == k0 {
                assert(!is_guard(marker(EffectOps::Commit)));
            } else {
                assert(o2[k] == out[k0]);
                assert(!is_guard(out.last()));
            }
        }
    }
}

proof fn lemma_state_without_guards(s: Seq<TraceInstr>)
    requires
        forall|k: int| 0 <= k < s.len() ==> !is_guard(#[trigger] s[k]),
    ensures
        speculation_state(s) == (s, false),
    decreases s.len(),
{
    if s.len() > 0 {
        let p = s.drop_last();
        assert forall|k: int| 0 <= k < p.len() implies !is_guard(#[trigger] p[k]) by {
            assert(p[k] == s[k]);
        }
        lemma_state_without_guards(p);
        assert(!is_guard(s[s.len() - 1]));
        assert(p.push(s.last()) == s);
    }
}

/// A trace without guards is left as it is: speculation markers appear only
/// where there is a guard.
pub proof fn lemma_no_guards_unchanged(s: Seq<TraceInstr>)
    requires
        forall|k: int| 0 <= k < s.len() ==> !is_guard(#[trigger] s[k]),
    ensures
        speculated(s) == s,
{
    lemma_state_without_guards(s);
}

/// The index of the last function named `main`, or 0 where there is none.
pub open spec fn main_index(fs: Seq<Function>) -> int
    decreases fs.len(),
{
    if fs.len() == 0 {
        0
    } else if fs.last().name@ == "main"@ {
        fs.len() - 1
    } else {
        main_index(fs.drop_last())
    }
}

/// The chosen `main` is one of the functions.
pub proof fn lemma_main_index_bounds(fs: Seq<Function>)
    ensures
        fs.len() > 0 ==> 0 <= main_index(fs) < fs.len(),
    decreases fs.len(),
{
    if fs.len() > 0 {
        lemma_main_index_bounds(fs.drop_last());
        if fs.drop_last().len() == 0 {
            assert(main_index(fs.drop_last()) == 0);
        }
    }
}

/// A jump is the last instruction and names at least one label, or the last
/// instruction is no jump.
pub open spec fn jump_has_label(last: TraceInstr) -> bool {
    match last {
        TraceInstr::Effect { op, labels, .. } => op == EffectOps::Jmp ==> labels.len() > 0,
        _ => true,
    }
}

/// The `.trace_end` label that closes a trace whose last instruction jumps
/// to `.trace_end`.
pub open spec fn trace_end_label(last: TraceInstr) -> Seq<TraceInstr> {
    match last {
        TraceInstr::Effect { op, labels, .. } => {
            if op == EffectOps::Jmp && labels[0] == ".trace_end"@ {
                seq![TraceInstr::Label { label: ".trace_end"@ }]
            } else {
                Seq::empty()
            }
        },
        _ => Seq::empty(),
    }
}

/// The new instructions of `main`: the speculated trace, then `main`'s own
/// instructions, then the closing label where the trace jumps to it.
pub open spec fn stitched(trace: Seq<TraceInstr>, main_instrs: Seq<TraceInstr>) -> Seq<TraceInstr> {
    let sp = speculated(trace);
    sp + main_instrs + trace_end_label(sp.last())
}

/// Puts the speculated trace (the first function of `trace`) in front of the
/// instructions of the program's `main` (the last function of that
/// name, else the first function), closing it with the `.trace_end` label
/// where the trace ends by jumping there.
pub fn stitch_trace(program: &mut Program, trace: &Program)
    requires
        old(program).functions.len() > 0,
        trace.functions.len() > 0,
        trace.functions@[0].instrs.len() > 0,
        jump_has_label(speculated(trace_view(trace.functions@[0].instrs@)).last()),
    ensures
        ({
            let m = main_index(old(program).functions@);
            let f0 = old(program).functions@[m];
            let f1 = final(program).functions@[m];
            &&& final(program).functions.len() == old(program).functions.len()
            &&& forall|i: int| 0 <= i < old(program).functions.len() && i != m
                ==> #[trigger] final(program).functions@[i] == old(program).functions@[i]
            &&& f1.name == f0.name
            &&& f1.args == f0.args
            &&& f1.func_type == f0.func_type
            &&& trace_view(f1.instrs@) == stitched(trace_view(trace.functions@[0].instrs@), trace_view(f0.instrs@))
        }),
{
    broadcast use vstd::string::group_string_axioms;
    let ghost t = trace_view(trace.functions@[0].instrs@);
    let mut modified_insns = speculate_trace(&trace.functions[0].instrs);
    proof {
        lemma_open_speculation_nonempty(t);
    }
    assert(modified_insns.len() > 0);
    let last_instr = modified_insns[modified_insns.len() - 1].duplicate();
    assert(last_instr@ == speculated(t).last());
    let mut main_idx: usize = 0;
    let mut idx: usize = 0;
    while idx < program.functions.len()
        invariant
            idx <= program.functions.len(),
            program.functions.len() > 0,
            main_idx < program.functions.len(),
            main_idx as int == main_index(program.functions@.take(idx as int)),
        decreases program.functions.len() - idx,
    {
        assert(program.functions@.take(idx as int + 1).drop_last() == program.functions@.take(idx as int));
        if str_eq(program.functions[idx].name.as_str(), "main") {
            main_idx = idx;
        }
        idx += 1;
    }
    assert(program.functions@.take(program.functions.len() as int) == program.functions@);
    let ghost fs0 = program.functions@;
    let mut func = program.functions.remove(main_idx);
    let ghost main0 = trace_view(func.instrs@);
    let ghost sp = trace_view(modified_insns@);
    modified_insns.append(&mut func.instrs);
    assert(trace_view(modified_insns@) =~= sp + main0);
    match &last_instr {
        InsnType::Effect { op: EffectOps::Jmp, labels, .. } => {
            assert(strs_view(labels@).len() > 0);
            assert(strs_view(labels@)[0] == labels@[0]@);
            if str_eq(labels[0].as_str(), ".trace_end") {
                let temp_instr = InsnType::Label { label: ".trace_end".to_string() };
                modified_insns.push(temp_instr);
                assert(trace_view(modified_insns@) =~= sp + main0 + trace_end_label(last_instr@));
            } else {
                assert(trace_view(modified_insns@) =~= sp + main0 + trace_end_label(last_instr@));
            }
        },
        _ => {
            assert(trace_view(modified_insns@) =~= sp + main0 + trace_end_label(last_instr@));
        },
    }
    func.instrs = modified_insns;
    program.functions.insert(main_idx, func);
    assert forall|i: int| 0 <= i < fs0.len() && i != main_idx implies #[trigger] program.functions@[i] == fs0[i] by {
        if i < main_idx {
        } else {
        }
    }
}

} // verus!
