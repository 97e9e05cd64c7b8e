use std::collections::HashSet;

use bril_passes::bril::{split_into_blocks, Function, InsnType};
use bril_passes::licm::Licm;
use bril_passes::loops::{Block, BlockName, FuncContext};

fn s(x: &str) -> String {
    x.to_string()
}

fn strs(xs: &[&str]) -> Vec<String> {
    xs.iter().map(|x| x.to_string()).collect()
}

fn label(l: &str) -> InsnType {
    InsnType::Label { label: s(l) }
}

fn constant(dest: &str, value: &str) -> InsnType {
    InsnType::Constant { op: s("const"), dest: s(dest), insn_type: s("int"), value: s(value) }
}

fn valop(op: &str, dest: &str, args: &[&str]) -> InsnType {
    InsnType::ValOp { op: s(op), insn_type: s("int"), dest: s(dest), args: Some(strs(args)), funcs: None }
}

fn term(op: &str, labels: &[&str], args: Option<&[&str]>) -> InsnType {
    InsnType::Terminator { op: s(op), labels: strs(labels), args: args.map(strs) }
}

fn print(args: &[&str]) -> InsnType {
    InsnType::Effect { op: s("print"), args: Some(strs(args)) }
}

fn show_strs(v: &Option<Vec<String>>) -> String {
    match v {
        Some(v) => format!("[{}]", v.join(",")),
        None => s("-"),
    }
}

fn show(i: &InsnType) -> String {
    match i {
        InsnType::Label { label } => format!("{}:", label),
        InsnType::Terminator { op, labels, args } => format!("{} {} {}", op, labels.join(","), show_strs(args)),
        InsnType::Constant { op, dest, insn_type, value } => format!("{}: {} = {} {}", dest, insn_type, op, value),
        InsnType::ValOp { op, insn_type, dest, args, funcs } => {
            format!("{}: {} = {} {} {}", dest, insn_type, op, show_strs(args), show_strs(funcs))
        }
        InsnType::Effect { op, args } => format!("{} {}", op, show_strs(args)),
    }
}

fn show_all(v: &[InsnType]) -> Vec<String> {
    v.iter().map(show).collect()
}

/// A counting loop: block 0 sets up, block 1 tests, block 2 is the body,
/// block 3 prints.
fn loop_function() -> Function {
    Function {
        name: s("main"),
        args: None,
        instructions: vec![
            constant("i", "0"),
            constant("n", "10"),
            label(".loop"),
            valop("lt", "c", &["i", "n"]),
            term("br", &[".body", ".end"], Some(&["c"])),
            label(".body"),
            constant("one", "1"),
            valop("add", "i", &["i", "one"]),
            term("jmp", &[".loop"], None),
            label(".end"),
            print(&["i"]),
        ],
        func_type: None,
    }
}

fn loop_context() -> FuncContext {
    let mut ctx = FuncContext::new();
    ctx.init(&loop_function());
    ctx
}

fn set_of(xs: &[u32]) -> HashSet<u32> {
    xs.iter().cloned().collect()
}

fn sorted(v: &[String]) -> Vec<String> {
    let mut v = v.to_vec();
    v.sort();
    v
}

#[test]
fn split_closes_blocks_at_labels_and_terminators() {
    let blocks = split_into_blocks(&loop_function().instructions);
    let sizes: Vec<usize> = blocks.iter().map(|b| b.len()).collect();
    assert_eq!(sizes, vec![2, 3, 4, 2]);
    assert_eq!(show(&blocks[1][0]), ".loop:");
    assert_eq!(show(&blocks[3][1]), "print [i]");
}

#[test]
fn split_keeps_every_instruction_in_order() {
    let f = loop_function();
    let blocks = split_into_blocks(&f.instructions);
    let joined: Vec<String> = blocks.iter().flat_map(|b| show_all(b)).collect();
    assert_eq!(joined, show_all(&f.instructions));
}

#[test]
fn split_leaves_an_empty_last_block_after_a_terminator() {
    let blocks = split_into_blocks(&vec![constant("a", "1"), term("ret", &[], None)]);
    assert_eq!(blocks.len(), 2);
    assert_eq!(blocks[0].len(), 2);
    assert!(blocks[1].is_empty());
}

#[test]
fn init_splits_function_into_named_blocks() {
    let ctx = loop_context();
    assert_eq!(ctx.num_blocks(), 4);
    for (i, b) in ctx.blocks.iter().enumerate() {
        assert!(b.name == BlockName(i as u32));
    }
    assert_eq!(show_all(ctx.block_instructions(2)), vec![".body:", "one: int = const 1", "i: int = add [i,one] -", "jmp .loop -"]);
}

#[test]
fn dominance_frontier_of_loop_blocks_is_empty() {
    let ctx = loop_context();
    for b in 0..4 {
        assert!(ctx.dominance_frontier(b).is_empty());
    }
}

#[test]
fn natural_loop_of_back_edge() {
    let ctx = loop_context();
    let loops = ctx.find_natural_loops();
    assert_eq!(loops.len(), 1);
    assert_eq!(loops.get(&2), Some(&set_of(&[2])));
}

#[test]
fn straight_line_code_has_no_loops() {
    let f = Function {
        name: s("main"),
        args: None,
        instructions: vec![constant("a", "1"), print(&["a"])],
        func_type: None,
    };
    let mut ctx = FuncContext::new();
    ctx.init(&f);
    assert_eq!(ctx.num_blocks(), 1);
    assert!(ctx.find_natural_loops().is_empty());
}

#[test]
fn reaching_definitions_of_loop() {
    let ctx = loop_context();
    let rd = ctx.workflow();
    assert_eq!(rd.len(), 4);
    assert_eq!(sorted(&rd[0]), strs(&["i", "n"]));
    assert_eq!(sorted(&rd[1]), strs(&["c", "i", "n", "one"]));
    assert_eq!(sorted(&rd[2]), strs(&["c", "i", "n", "one"]));
    assert_eq!(sorted(&rd[3]), strs(&["c", "i", "n", "one"]));
}

#[test]
fn reaching_definitions_start_from_arguments() {
    let f = Function {
        name: s("f"),
        args: Some(strs(&["p"])),
        instructions: vec![valop("id", "q", &["p"]), label(".next"), print(&["q"])],
        func_type: Some(s("int")),
    };
    let mut ctx = FuncContext::new();
    ctx.init(&f);
    let rd = ctx.workflow();
    assert_eq!(rd.len(), 2);
    assert_eq!(sorted(&rd[0]), strs(&["p", "q"]));
    assert_eq!(sorted(&rd[1]), strs(&["p", "q"]));
}

#[test]
fn reaching_definitions_leave_lone_last_block_empty() {
    let f = Function {
        name: s("f"),
        args: Some(strs(&["p"])),
        instructions: vec![valop("id", "q", &["p"]), print(&["q"])],
        func_type: None,
    };
    let mut ctx = FuncContext::new();
    ctx.init(&f);
    let rd = ctx.workflow();
    assert_eq!(rd.len(), 1);
    assert!(rd[0].is_empty());
}

#[test]
fn licm_hoists_constant_of_loop_body() {
    let ctx = loop_context();
    let mut licm = Licm::new(&ctx);
    licm.do_licm();
    let program = licm.construct_new_program();
    assert_eq!(
        show_all(&program),
        vec![
            "i: int = const 0",
            "n: int = const 10",
            ".loop:",
            "c: int = lt [i,n] -",
            "br .body,.end [c]",
            "one: int = const 1",
            ".body:",
            "one: int = const 1",
            "i: int = add [i,one] -",
            "jmp .loop -",
            ".end:",
            "print [i]",
        ]
    );
}

#[test]
fn licm_without_loops_keeps_function() {
    let f = Function {
        name: s("main"),
        args: None,
        instructions: vec![constant("a", "1"), label(".x"), valop("add", "b", &["a", "a"]), print(&["b"])],
        func_type: None,
    };
    let mut ctx = FuncContext::new();
    ctx.init(&f);
    let mut licm = Licm::new(&ctx);
    licm.do_licm();
    assert_eq!(show_all(&licm.construct_new_program()), show_all(&f.instructions));
}

#[test]
fn licm_program_before_hoisting_is_unchanged() {
    let ctx = loop_context();
    let licm = Licm::new(&ctx);
    assert_eq!(show_all(&licm.construct_new_program()), show_all(&loop_function().instructions));
}

#[test]
fn transfer_adds_assigned_names() {
    let block = Block { name: BlockName(0), instructions: vec![constant("a", "1"), valop("add", "b", &["a", "a"]), print(&["b"])] };
    let out = Licm::reaching_defs_transfer(&block, &strs(&["a", "x"]));
    assert_eq!(sorted(&out), strs(&["a", "b", "x"]));
}

#[test]
fn merge_is_union_without_repeats() {
    let out = Licm::reaching_defs_merge(&strs(&["a", "b"]), &strs(&["b", "c"]));
    assert_eq!(sorted(&out), strs(&["a", "b", "c"]));
}

#[test]
fn init_puts_arguments_into_first_input() {
    let blocks = vec![
        Block { name: BlockName(0), instructions: vec![print(&["p"])] },
        Block { name: BlockName(1), instructions: vec![print(&["p"])] },
    ];
    let (inputs, outputs) = Licm::reaching_defs_init(&Some(strs(&["p", "p"])), &blocks);
    assert_eq!(inputs.len(), 2);
    assert_eq!(sorted(&inputs[0]), strs(&["p"]));
    assert!(inputs[1].is_empty());
    assert!(outputs.iter().all(|o| o.is_empty()));
}

#[test]
fn dominance_tree_leaves_context_unchanged() {
    let mut ctx = loop_context();
    ctx.make_dominance_tree();
    assert_eq!(ctx.num_blocks(), 4);
    assert_eq!(ctx.find_natural_loops().get(&2), Some(&set_of(&[2])));
}

#[test]
fn transfer_twice_is_transfer_once() {
    let block = Block { name: BlockName(0), instructions: vec![constant("a", "1"), valop("add", "b", &["a", "a"])] };
    let once = Licm::reaching_defs_transfer(&block, &strs(&["x"]));
    let twice = Licm::reaching_defs_transfer(&block, &once);
    assert_eq!(sorted(&once), strs(&["a", "b", "x"]));
    assert_eq!(sorted(&twice), sorted(&once));
}

#[test]
fn fresh_context_has_no_frontier_loops_or_program() {
    let ctx = FuncContext::new();
    assert!(ctx.dominance_frontier(0).is_empty());
    assert!(ctx.find_natural_loops().is_empty());
    let licm = Licm::new(&ctx);
    assert!(licm.construct_new_program().is_empty());
}
