use vstd::prelude::*;

verus! {

/// A Bril instruction as the CFG, SSA and loop passes read it.
#[derive(Clone)]
pub enum InsnType {
    Label { label: String },
    Terminator { op: String, labels: Vec<String>, args: Option<Vec<String>> },
    Constant { op: String, dest: String, insn_type: String, value: String },
    ValOp {
        op: String,
        insn_type: String,
        dest: String,
        args: Option<Vec<String>>,
        funcs: Option<Vec<String>>,
    },
    Effect { op: String, args: Option<Vec<String>> },
}

/// The mathematical model of an instruction: every string by its characters.
pub enum Instr {
    Label { label: Seq<char> },
    Terminator { op: Seq<char>, labels: Seq<Seq<char>>, args: Option<Seq<Seq<char>>> },
    Constant { op: Seq<char>, dest: Seq<char>, insn_type: Seq<char>, value: Seq<char> },
    ValOp {
        op: Seq<char>,
        insn_type: Seq<char>,
        dest: Seq<char>,
        args: Option<Seq<Seq<char>>>,
        funcs: Option<Seq<Seq<char>>>,
    },
    Effect { op: Seq<char>, args: Option<Seq<Seq<char>>> },
}

/// The characters of each string of a list.
pub open spec fn strs_view(v: Seq<String>) -> Seq<Seq<char>> {
    v.map_values(|s: String| s@)
}

pub open spec fn opt_strs_view(o: Option<Vec<String>>) -> Option<Seq<Seq<char>>> {
    match o {
        Some(v) => Some(strs_view(v@)),
        None => None,
    }
}

impl View for InsnType {
    type V = Instr;

    open spec fn view(&self) -> Instr {
        match self {
            InsnType::Label { label } => Instr::Label { label: label@ },
            InsnType::Terminator { op, labels, args } => Instr::Terminator {
                op: op@,
                labels: strs_view(labels@),
                args: opt_strs_view(*args),
            },
            InsnType::Constant { op, dest, insn_type, value } => Instr::Constant {
                op: op@,
                dest: dest@,
                insn_type: insn_type@,
                value: value@,
            },
            InsnType::ValOp { op, insn_type, dest, args, funcs } => Instr::ValOp {
                op: op@,
                insn_type: insn_type@,
                dest: dest@,
                args: opt_strs_view(*args),
                funcs: opt_strs_view(*funcs),
            },
            InsnType::Effect { op, args } => Instr::Effect { op: op@, args: opt_strs_view(*args) },
        }
    }
}

/// The models of a list of instructions.
pub open spec fn insns_view(v: Seq<InsnType>) -> Seq<Instr> {
    v.map_values(|i: InsnType| i@)
}

/// A function as the CFG, SSA and loop passes read it.
#[derive(Clone)]
pub struct Function {
    pub name: String,
    pub args: Option<Vec<String>>,
    pub instructions: Vec<InsnType>,
    pub func_type: Option<String>,
}

/// A whole program.
pub struct Program {
    pub functions: Vec<Function>,
}

/// Copies a list of strings.
pub fn copy_strs(v: &Vec<String>) -> (r: Vec<String>)
    ensures
        strs_view(r@) == strs_view(v@),
{
    let mut r: Vec<String> = Vec::new();
    let mut i: usize = 0;
    while i < v.len()
        invariant
            i <= v.len(),
            r.len() == i,
            strs_view(r@) == strs_view(v@).take(i as int),
        decreases v.len() - i,
    {
        r.push(v[i].clone());
        assert(strs_view(r@) =~= strs_view(v@).take(i as int + 1));
        i += 1;
    }
    assert(strs_view(v@).take(v.len() as int) == strs_view(v@));
    r
}

/// Copies an optional list of strings.
pub fn copy_opt_strs(o: &Option<Vec<String>>) -> (r: Option<Vec<String>>)
    ensures
        opt_strs_view(r) == opt_strs_view(*o),
{
    match o {
        Some(v) => Some(copy_strs(v)),
        None => None,
    }
}

/// Copies a list of instructions.
pub fn copy_insns(v: &Vec<InsnType>) -> (r: Vec<InsnType>)
    ensures
        insns_view(r@) == insns_view(v@),
{
    let mut r: Vec<InsnType> = Vec::new();
    let mut j: usize = 0;
    while j < v.len()
        invariant
            j <= v.len(),
            r.len() == j,
            insns_view(r@) == insns_view(v@).take(j as int),
        decreases v.len() - j,
    {
        r.push(v[j].duplicate());
        assert(insns_view(r@) =~= insns_view(v@).take(j as int + 1));
        j += 1;
    }
    assert(insns_view(v@).take(v.len() as int) == insns_view(v@));
    r
}

/// Appends copies of the instructions of `src` to `dst`.
pub fn extend_insns(dst: &mut Vec<InsnType>, src: &Vec<InsnType>)
    ensures
        insns_view(final(dst)@) == insns_view(old(dst)@) + insns_view(src@),
{
    let ghost d0 = insns_view(dst@);
    let mut j: usize = 0;
    while j < src.len()
        invariant
            j <= src.len(),
            dst.len() == d0.len() + j,
            insns_view(dst@) == d0 + insns_view(src@).take(j as int),
        decreases src.len() - j,
    {
        let ghost prev = dst@;
        let x = src[j].duplicate();
        dst.push(x);
        assert(insns_view(dst@) =~= insns_view(prev).push(src@[j as int]@));
        assert(insns_view(src@).take(j as int + 1) =~= insns_view(src@).take(j as int).push(src@[j as int]@));
        assert(insns_view(dst@) =~= d0 + insns_view(src@).take(j as int + 1));
        j += 1;
    }
    assert(insns_view(src@).take(src.len() as int) == insns_view(src@));
}

impl InsnType {
    /// A copy of the instruction, with the same model.
    pub fn duplicate(&self) -> (r: InsnType)
        ensures
            r@ == self@,
    {
        match self {
            InsnType::Label { label } => InsnType::Label { label: label.clone() },
            InsnType::Terminator { op, labels, args } => InsnType::Terminator {
                op: op.clone(),
                labels: copy_strs(labels),
                args: copy_opt_strs(args),
            },
            InsnType::Constant { op, dest, insn_type, value } => InsnType::Constant {
                op: op.clone(),
                dest: dest.clone(),
                insn_type: insn_type.clone(),
                value: value.clone(),
            },
            InsnType::ValOp { op, insn_type, dest, args, funcs } => InsnType::ValOp {
                op: op.clone(),
                insn_type: insn_type.clone(),
                dest: dest.clone(),
                args: copy_opt_strs(args),
                funcs: copy_opt_strs(funcs),
            },
            InsnType::Effect { op, args } => InsnType::Effect {
                op: op.clone(),
                args: copy_opt_strs(args),
            },
        }
    }
}

/// Whether two strings hold the same characters.
pub(crate) fn str_eq(a: &str, b: &str) -> (r: bool)
    ensures
        r == (a@ == b@),
{
    a.to_owned() == b.to_owned()
}

/// The label that opens a block, if it opens with one.
pub open spec fn label_of(b: Seq<Instr>) -> Option<Seq<char>> {
    if b.len() > 0 && b[0] is Label {
        Some(b[0]->label)
    } else {
        None
    }
}

/// The index of the last block that opens with label `l`.
pub open spec fn label_target(bs: Seq<Seq<Instr>>, l: Seq<char>) -> Option<int>
    decreases bs.len(),
{
    if bs.len() == 0 {
        None
    } else if label_of(bs.last()) == Some(l) {
        Some(bs.len() - 1)
    } else {
        label_target(bs.drop_last(), l)
    }
}

/// The target of a label is a block that opens with it; a label without a
/// target opens no block.
pub proof fn lemma_label_target_bounds(bs: Seq<Seq<Instr>>, l: Seq<char>)
    ensures
        label_target(bs, l) matches Some(t) ==> 0 <= t < bs.len() && label_of(bs[t]) == Some(l),
        label_target(bs, l) is None ==> forall|k: int| 0 <= k < bs.len() ==> label_of(#[trigger] bs[k]) != Some(l),
    decreases bs.len(),
{
    if bs.len() > 0 {
        lemma_label_target_bounds(bs.drop_last(), l);
        if label_of(bs.last()) != Some(l) {
            assert forall|k: int| 0 <= k < bs.len() - 1 implies #[trigger] bs[k] == bs.drop_last()[k] by {}
        }
    }
}

/// Finds the last block that opens with `label`.
pub fn find_label(blocks: &Vec<Vec<InsnType>>, label: &String) -> (r: Option<usize>)
    ensures
        match r {
            Some(t) => label_target(blocks_view(blocks@), label@) == Some(t as int),
            None => label_target(blocks_view(blocks@), label@) is None,
        },
{
    let ghost bs = blocks_view(blocks@);
    let mut k: usize = blocks.len();
    assert(bs.take(k as int) == bs);
    while k > 0
        invariant
            k <= blocks.len(),
            bs == blocks_view(blocks@),
            label_target(bs, label@) == label_target(bs.take(k as int), label@),
        decreases k,
    {
        let b = &blocks[k - 1];
        assert(bs.take(k as int).last() == insns_view(b@));
        assert(bs.take(k as int).drop_last() == bs.take(k as int - 1));
        if b.len() > 0 {
            match &b[0] {
                InsnType::Label { label: l } => {
                    if *l == *label {
                        return Some(k - 1);
                    }
                },
                _ => {},
            }
        }
        k -= 1;
    }
    None
}

/// The variable an instruction assigns, for constants and value operations.
pub open spec fn dest_of(i: Instr) -> Option<Seq<char>> {
    match i {
        Instr::Constant { dest, .. } => Some(dest),
        Instr::ValOp { dest, .. } => Some(dest),
        _ => None,
    }
}

/// The variables that a list of instructions assigns, in order (with repeats).
pub open spec fn dest_seq(b: Seq<Instr>) -> Seq<Seq<char>>
    decreases b.len(),
{
    if b.len() == 0 {
        Seq::empty()
    } else {
        match dest_of(b.last()) {
            Some(d) => dest_seq(b.drop_last()).push(d),
            None => dest_seq(b.drop_last()),
        }
    }
}

/// The set of variables that a list of instructions assigns.
pub open spec fn defined_names(b: Seq<Instr>) -> Set<Seq<char>> {
    dest_seq(b).to_set()
}

/// A name is assigned by the list exactly when some instruction of it assigns it.
pub proof fn lemma_defined_names(b: Seq<Instr>)
    ensures
        forall|x: Seq<char>| #[trigger] defined_names(b).contains(x) <==> exists|i: int|
            0 <= i < b.len() && dest_of(#[trigger] b[i]) == Some(x),
        defined_names(b).finite(),
    decreases b.len(),
{
    vstd::seq_lib::seq_to_set_is_finite(dest_seq(b));
    if b.len() > 0 {
        lemma_defined_names(b.drop_last());
        let p = b.drop_last();
        assert forall|x: Seq<char>| #[trigger] defined_names(b).contains(x) <==> exists|i: int|
            0 <= i < b.len() && dest_of(#[trigger] b[i]) == Some(x) by {
            if defined_names(b).contains(x) {
                let k = choose|k: int| 0 <= k < dest_seq(b).len() && dest_seq(b)[k] == x;
                if dest_of(b.last()) is Some && k == dest_seq(b).len() - 1 {
                    assert(dest_of(b[b.len() - 1]) == Some(x));
                } else {
                    assert(dest_seq(p)[k] == x);
                    assert(defined_names(p).contains(x));
                    let i = choose|i: int| 0 <= i < p.len() && dest_of(#[trigger] p[i]) == Some(x);
                    assert(b[i] == p[i]);
                }
            }
            if exists|i: int| 0 <= i < b.len() && dest_of(#[trigger] b[i]) == Some(x) {
                let i = choose|i: int| 0 <= i < b.len() && dest_of(#[trigger] b[i]) == Some(x);
                if i == b.len() - 1 {
                    assert(dest_seq(b)[dest_seq(b).len() - 1] == x);
                } else {
                    assert(p[i] == b[i]);
                    assert(defined_names(p).contains(x));
                    let k = choose|k: int| 0 <= k < dest_seq(p).len() && dest_seq(p)[k] == x;
                    assert(dest_seq(b)[k] == x);
                }
            }
        }
    } else {
        assert(defined_names(b) =~= Set::empty());
    }
}

/// Whether the instruction is a label.
pub open spec fn is_label(i: Instr) -> bool {
    i is Label
}

/// Whether the instruction ends a block.
pub open spec fn is_terminator(i: Instr) -> bool {
    i is Terminator
}

/// The models of a list of blocks.
pub open spec fn blocks_view(v: Seq<Vec<InsnType>>) -> Seq<Seq<Instr>> {
    v.map_values(|b: Vec<InsnType>| insns_view(b@))
}

/// Reading the instructions in order: the blocks already closed, and the
/// instructions of the block still open. A label opens a new block (closing
/// the open one if it holds anything); a terminator closes the open block.
pub open spec fn split_state(s: Seq<Instr>) -> (Seq<Seq<Instr>>, Seq<Instr>)
    decreases s.len(),
{
    if s.len() == 0 {
        (Seq::empty(), Seq::empty())
    } else {
        let (bs, cur) = split_state(s.drop_last());
        let x = s.last();
        if is_label(x) {
            if cur.len() > 0 {
                (bs.push(cur), seq![x])
            } else {
                (bs, seq![x])
            }
        } else if is_terminator(x) {
            (bs.push(cur.push(x)), Seq::empty())
        } else {
            (bs, cur.push(x))
        }
    }
}

/// The basic blocks of a list of instructions: the closed blocks, then the
/// block left open at the end (which may be empty).
pub open spec fn split_blocks(s: Seq<Instr>) -> Seq<Seq<Instr>> {
    split_state(s).0.push(split_state(s).1)
}

/// Every closed block holds an instruction; the open block holds one exactly
/// when the list does not end with a terminator; and there are no more
/// blocks than instructions.
pub proof fn lemma_split_shape(s: Seq<Instr>)
    ensures
        forall|k: int| 0 <= k < split_state(s).0.len() ==> #[trigger] split_state(s).0[k].len() > 0,
        split_state(s).1.len() > 0 <==> (s.len() > 0 && !is_terminator(s.last())),
        split_state(s).0.len() + (if split_state(s).1.len() > 0 { 1int } else { 0int }) <= s.len(),
    decreases s.len(),
{
    if s.len() > 0 {
        lemma_split_shape(s.drop_last());
    }
}

/// The instructions of the blocks, one block after the other.
pub open spec fn concat_blocks(bs: Seq<Seq<Instr>>) -> Seq<Instr>
    decreases bs.len(),
{
    if bs.len() == 0 {
        Seq::empty()
    } else {
        concat_blocks(bs.drop_last()) + bs.last()
    }
}

proof fn lemma_split_state_concat(s: Seq<Instr>)
    ensures
        concat_blocks(split_state(s).0) + split_state(s).1 == s,
    decreases s.len(),
{
    if s.len() > 0 {
        let p = s.drop_last();
        lemma_split_state_concat(p);
        let (bs, cur) = split_state(p);
        let x = s.last();
        assert(s == p.push(x));
        if is_label(x) {
            if cur.len() > 0 {
                assert(bs.push(cur).drop_last() == bs);
                assert(concat_blocks(bs.push(cur)) == concat_blocks(bs) + cur);
                assert(concat_blocks(bs.push(cur)) + seq![x] =~= (concat_blocks(bs) + cur).push(x));
            } else {
                assert(concat_blocks(bs) + seq![x] =~= (concat_blocks(bs) + cur).push(x));
            }
        } else if is_terminator(x) {
            assert(bs.push(cur.push(x)).drop_last() == bs);
            assert(concat_blocks(bs.push(cur.push(x))) + Seq::<Instr>::empty() =~= (concat_blocks(bs) + cur).push(x));
        } else {
            assert(concat_blocks(bs) + cur.push(x) =~= (concat_blocks(bs) + cur).push(x));
        }
    }
}

/// Splitting into blocks loses and adds nothing: the blocks, one after the
/// other, are the instructions.
pub proof fn lemma_blocks_cover_instructions(s: Seq<Instr>)
    ensures
        concat_blocks(split_blocks(s)) == s,
{
    lemma_split_state_concat(s);
    let (bs, cur) = split_state(s);
    assert(bs.push(cur).drop_last() == bs);
}

/// Splits a list of instructions into basic blocks.
pub fn split_into_blocks(instrs: &Vec<InsnType>) -> (r: Vec<Vec<InsnType>>)
    ensures
        blocks_view(r@) == split_blocks(insns_view(instrs@)),
{
    let ghost s = insns_view(instrs@);
    let mut blocks: Vec<Vec<InsnType>> = Vec::new();
    let mut current: Vec<InsnType> = Vec::new();
    let mut i: usize = 0;
    while i < instrs.len()
        invariant
            i <= instrs.len(),
            s == insns_view(instrs@),
            (blocks_view(blocks@), insns_view(current@)) == split_state(s.take(i as int)),
        decreases instrs.len() - i,
    {
        let ghost bs0 = blocks_view(blocks@);
        let ghost cur0 = insns_view(current@);
        assert(s.take(i as int + 1).drop_last() == s.take(i as int));
        let insn = &instrs[i];
        match insn {
            InsnType::Label { .. } => {
                if current.len() > 0 {
                    blocks.push(current);
                    current = Vec::new();
                    assert(blocks_view(blocks@) =~= bs0.push(cur0));
                }
                current.push(insn.duplicate());
                assert(insns_view(current@) =~= seq![insn@]);
            },
            InsnType::Terminator { .. } => {
                current.push(insn.duplicate());
                assert(insns_view(current@) =~= cur0.push(insn@));
                blocks.push(current);
                current = Vec::new();
                assert(blocks_view(blocks@) =~= bs0.push(cur0.push(insn@)));
                assert(insns_view(current@) =~= Seq::<Instr>::empty());
            },
            _ => {
                current.push(insn.duplicate());
                assert(insns_view(current@) =~= cur0.push(insn@));
            },
        }
        i += 1;
    }
    assert(s.take(instrs.len() as int) == s);
    let ghost bs0 = blocks_view(blocks@);
    let ghost cur0 = insns_view(current@);
    blocks.push(current);
    assert(blocks_view(blocks@) =~= bs0.push(cur0));
    blocks
}

} // verus!
