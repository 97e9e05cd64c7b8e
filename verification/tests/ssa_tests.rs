use bril_passes::bril::{Function, InsnType};
use bril_passes::loops::function_ready;
use bril_passes::ssa::FuncContext;

fn s(x: &str) -> String {
    x.to_string()
}

fn strs(xs: &[&str]) -> Vec<String> {
    xs.iter().map(|x| x.to_string()).collect()
}

fn label(l: &str) -> InsnType {
    InsnType::Label { label: s(l) }
}

fn constant(dest: &str, value: &str) -> InsnType {
    InsnType::Constant { op: s("const"), dest: s(dest), insn_type: s("int"), value: s(value) }
}

fn valop(op: &str, dest: &str, args: &[&str]) -> InsnType {
    InsnType::ValOp { op: s(op), insn_type: s("int"), dest: s(dest), args: Some(strs(args)), funcs: None }
}

fn print(args: &[&str]) -> InsnType {
    InsnType::Effect { op: s("print"), args: Some(strs(args)) }
}

fn show_strs(v: &Option<Vec<String>>) -> String {
    match v {
        Some(v) => format!("[{}]", v.join(",")),
        None => s("-"),
    }
}

fn show(i: &InsnType) -> String {
    match i {
        InsnType::Label { label } => format!("{}:", label),
        InsnType::Terminator { op, labels, args } => format!("{} {} {}", op, labels.join(","), show_strs(args)),
        InsnType::Constant { op, dest, insn_type, value } => format!("{}: {} = {} {}", dest, insn_type, op, value),
        InsnType::ValOp { op, insn_type, dest, args, funcs } => {
            format!("{}: {} = {} {} {}", dest, insn_type, op, show_strs(args), show_strs(funcs))
        }
        InsnType::Effect { op, args } => format!("{} {}", op, show_strs(args)),
    }
}

fn show_all(v: &[InsnType]) -> Vec<String> {
    v.iter().map(show).collect()
}

fn prepared(f: &Function) -> FuncContext {
    assert!(function_ready(f, false));
    let mut ctx = FuncContext::new();
    ctx.init(f);
    ctx.collect_vars();
    ctx
}

fn convert(f: &Function) -> Function {
    let mut ctx = prepared(f);
    assert!(ctx.ssa_ready());
    ctx.ssa_convert()
}

fn br(labels: &[&str], args: &[&str]) -> InsnType {
    InsnType::Terminator { op: s("br"), labels: strs(labels), args: Some(strs(args)) }
}

/// Every block but the last is the target of a `br`; block 1 assigns `x`
/// again, and block 2 lies in its dominance frontier.
fn frontier_function() -> Function {
    Function {
        name: s("main"),
        args: None,
        instructions: vec![
            label(".A"),
            constant("x", "1"),
            br(&[".B", ".C"], &["x"]),
            label(".B"),
            constant("x", "2"),
            br(&[".A"], &["x"]),
            label(".C"),
            print(&["x"]),
            label(".D"),
            print(&["x"]),
        ],
        func_type: None,
    }
}

#[test]
fn ssa_places_set_get_and_renames_first_block() {
    let out = convert(&frontier_function());
    assert_eq!(out.name, "main");
    assert!(out.args.is_none());
    assert!(out.func_type.is_none());
    assert_eq!(
        show_all(&out.instructions),
        vec![
            ".A:",
            "x.ssa.1: int = const 1",
            "br .B,.C [x]",
            "set [x,x]",
            ".B:",
            "x: int = const 2",
            "br .A [x]",
            "set [x,x]",
            "x: int = get - -",
            ".C:",
            "print [x]",
            ".D:",
            "print [x]",
        ]
    );
}

#[test]
fn ssa_adds_undef_for_names_not_assigned_on_every_path() {
    let f = Function {
        name: s("g"),
        args: Some(strs(&["p"])),
        instructions: vec![
            label(".A"),
            constant("x", "1"),
            br(&[".B"], &["x"]),
            label(".B"),
            constant("y", "2"),
            br(&[".A"], &["y"]),
            label(".C"),
            print(&["x"]),
        ],
        func_type: Some(s("int")),
    };
    let out = convert(&f);
    assert_eq!(out.name, "g");
    assert_eq!(out.args, Some(strs(&["p"])));
    assert_eq!(out.func_type, Some(s("int")));
    assert_eq!(
        show_all(&out.instructions),
        vec![
            ".A:",
            "x.ssa.1: int = const 1",
            "br .B [x]",
            "set [x,x]",
            ".B:",
            "y: int = const 2",
            "br .A [y]",
            "set [y,y]",
            ".C:",
            "print [x]",
            "y: int = undef - -",
        ]
    );
}

#[test]
fn ssa_numbers_each_new_name_of_a_variable() {
    let f = Function {
        name: s("main"),
        args: None,
        instructions: vec![
            label(".A"),
            constant("a", "1"),
            valop("add", "a", &["a", "a"]),
            valop("mul", "b", &["a", "a"]),
            br(&[".A", ".E"], &["b"]),
            label(".E"),
            print(&["b"]),
        ],
        func_type: None,
    };
    let out = convert(&f);
    let shown = show_all(&out.instructions);
    assert_eq!(shown.len(), 11);
    let mut undefs = shown[9..].to_vec();
    undefs.sort();
    assert_eq!(undefs, vec!["a: int = undef - -", "b: int = undef - -"]);
    assert_eq!(
        shown[..9].to_vec(),
        vec![
            ".A:",
            "a.ssa.1: int = const 1",
            "a.ssa.2: int = add [a,a] -",
            "b.ssa.1: int = mul [a,a] -",
            "br .A,.E [b]",
            "set [a,a]",
            "set [b,b]",
            ".E:",
            "print [b]",
        ]
    );
}

#[test]
fn ssa_not_ready_when_first_block_has_no_predecessor() {
    let f = Function {
        name: s("main"),
        args: None,
        instructions: vec![constant("x", "1"), br(&[".B"], &["x"]), label(".B"), print(&["x"])],
        func_type: None,
    };
    assert!(!prepared(&f).ssa_ready());
}

#[test]
fn ssa_not_ready_when_first_block_reads_an_argument() {
    let f = Function {
        name: s("main"),
        args: Some(strs(&["p"])),
        instructions: vec![
            label(".A"),
            valop("id", "y", &["p"]),
            br(&[".A", ".B"], &["y"]),
            label(".B"),
            print(&["y"]),
        ],
        func_type: None,
    };
    assert!(!prepared(&f).ssa_ready());
}

#[test]
fn ssa_not_ready_with_a_single_block() {
    let f = Function { name: s("main"), args: None, instructions: vec![constant("x", "1")], func_type: None };
    assert!(!prepared(&f).ssa_ready());
}

#[test]
fn function_not_ready_when_empty_or_ending_in_terminator() {
    let empty = Function { name: s("main"), args: None, instructions: vec![], func_type: None };
    assert!(!function_ready(&empty, false));
    let ends = Function {
        name: s("main"),
        args: None,
        instructions: vec![constant("x", "1"), InsnType::Terminator { op: s("ret"), labels: vec![], args: None }],
        func_type: None,
    };
    assert!(!function_ready(&ends, true));
}

#[test]
fn function_ready_checks_followed_labels() {
    let missing_br = Function {
        name: s("main"),
        args: None,
        instructions: vec![constant("x", "1"), br(&[".nowhere"], &["x"]), label(".B"), print(&["x"])],
        func_type: None,
    };
    assert!(!function_ready(&missing_br, false));
    let missing_jmp = Function {
        name: s("main"),
        args: None,
        instructions: vec![
            constant("x", "1"),
            InsnType::Terminator { op: s("jmp"), labels: strs(&[".nowhere"]), args: None },
            label(".B"),
            print(&["x"]),
        ],
        func_type: None,
    };
    assert!(function_ready(&missing_jmp, false));
    assert!(!function_ready(&missing_jmp, true));
}

#[test]
fn ssa_dominance_frontier_after_dominators() {
    let mut ctx = prepared(&frontier_function());
    assert!(ctx.dominance_frontier(1).is_empty());
    ctx.construct_dominators();
    let f1 = ctx.dominance_frontier(1);
    assert_eq!(f1.len(), 1);
    assert!(f1.contains(&2));
    assert!(ctx.dominance_frontier(0).is_empty());
    assert!(ctx.dominance_frontier(2).is_empty());
    assert!(ctx.dominance_frontier(3).is_empty());
}

#[test]
fn collecting_variables_twice_changes_nothing() {
    let mut ctx = prepared(&frontier_function());
    ctx.collect_vars();
    assert!(ctx.ssa_ready());
    let twice = ctx.ssa_convert();
    let once = convert(&frontier_function());
    assert_eq!(show_all(&twice.instructions), show_all(&once.instructions));
}

#[test]
fn ssa_names_count_past_nine() {
    let mut instructions = vec![label(".A")];
    for v in 0..11 {
        instructions.push(constant("a", &v.to_string()));
    }
    instructions.push(br(&[".A", ".E"], &["a"]));
    instructions.push(label(".E"));
    instructions.push(print(&["a"]));
    let f = Function { name: s("main"), args: None, instructions, func_type: None };
    let shown = show_all(&convert(&f).instructions);
    assert_eq!(shown[1], "a.ssa.1: int = const 0");
    assert_eq!(shown[10], "a.ssa.10: int = const 9");
    assert_eq!(shown[11], "a.ssa.11: int = const 10");
    assert_eq!(shown[12], "br .A,.E [a]");
    assert_eq!(shown[shown.len() - 1], "a: int = undef - -");
}
