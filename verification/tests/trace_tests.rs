use bril_passes::trace::{
    make_marker, speculate_trace, stitch_trace, Argument, ConstOp, EffectOps, Function, InsnType, Program, ValOps, Value,
};

fn s(x: &str) -> String {
    x.to_string()
}

fn strs(xs: &[&str]) -> Vec<String> {
    xs.iter().map(|x| x.to_string()).collect()
}

fn effect(op: EffectOps, args: &[&str], labels: &[&str]) -> InsnType {
    InsnType::Effect { funcs: Vec::new(), args: strs(args), labels: strs(labels), op }
}

fn constant(dest: &str, v: i32) -> InsnType {
    InsnType::Constant { dest: s(dest), op: ConstOp::Const, insn_type: s("int"), value: Value::Int(v) }
}

fn add(dest: &str, a: &str, b: &str) -> InsnType {
    InsnType::ValOp { args: strs(&[a, b]), dest: s(dest), op: ValOps::Add, insn_type: s("int"), funcs: Vec::new() }
}

fn effect_name(op: EffectOps) -> &'static str {
    match op {
        EffectOps::Jmp => "jmp",
        EffectOps::Branch => "br",
        EffectOps::Call => "call",
        EffectOps::Return => "ret",
        EffectOps::Print => "print",
        EffectOps::Speculate => "speculate",
        EffectOps::Guard => "guard",
        EffectOps::Commit => "commit",
        EffectOps::Nop => "nop",
    }
}

fn show(i: &InsnType) -> String {
    match i {
        InsnType::Label { label } => format!("{}:", label),
        InsnType::ValOp { args, dest, op, .. } => {
            let name = if *op == ValOps::Add { "add" } else { "op" };
            format!("{} = {} {}", dest, name, args.join(","))
        }
        InsnType::Effect { args, labels, op, .. } => {
            format!("{} {} {}", effect_name(*op), args.join(","), labels.join(",")).trim_end().to_string()
        }
        InsnType::Constant { dest, value, .. } => match value {
            Value::Int(v) => format!("{} = const {}", dest, v),
            Value::Bools => format!("{} = const bool", dest),
        },
    }
}

fn show_all(v: &[InsnType]) -> Vec<String> {
    v.iter().map(show).collect()
}

fn function(name: &str, instrs: Vec<InsnType>) -> Function {
    Function { name: s(name), args: Vec::new(), instrs, func_type: None }
}

fn sample_trace() -> Vec<InsnType> {
    vec![
        constant("a", 1),
        effect(EffectOps::Guard, &["c"], &[".recover"]),
        effect(EffectOps::Print, &["a"], &[]),
        add("b", "a", "a"),
        effect(EffectOps::Jmp, &[], &[".trace_end"]),
    ]
}

#[test]
fn marker_has_only_its_operation() {
    match make_marker(EffectOps::Commit) {
        InsnType::Effect { funcs, args, labels, op } => {
            assert!(funcs.is_empty() && args.is_empty() && labels.is_empty());
            assert!(op == EffectOps::Commit);
        }
        _ => panic!("a marker is an effect"),
    }
}

#[test]
fn speculation_wraps_guards_and_prints() {
    let out = speculate_trace(&sample_trace());
    assert_eq!(
        show_all(&out),
        vec![
            "a = const 1",
            "speculate",
            "guard c .recover",
            "commit",
            "print a",
            "speculate",
            "b = add a,a",
            "commit",
            "jmp  .trace_end",
        ]
    );
}

#[test]
fn trace_without_guards_is_unchanged() {
    let t = vec![constant("a", 1), effect(EffectOps::Print, &["a"], &[]), add("b", "a", "a")];
    assert_eq!(show_all(&speculate_trace(&t)), show_all(&t));
}

#[test]
fn second_guard_commits_first_speculation() {
    let t = vec![
        effect(EffectOps::Guard, &["c"], &[".r"]),
        effect(EffectOps::Guard, &["d"], &[".r"]),
        constant("a", 1),
    ];
    assert_eq!(
        show_all(&speculate_trace(&t)),
        vec!["speculate", "guard c .r", "commit", "speculate", "guard d .r", "commit", "a = const 1"]
    );
}

#[test]
fn speculation_only_adds_markers() {
    let t = sample_trace();
    let out = speculate_trace(&t);
    let stripped: Vec<String> = out
        .iter()
        .filter(|i| !matches!(i, InsnType::Effect { op: EffectOps::Speculate, .. } | InsnType::Effect { op: EffectOps::Commit, .. }))
        .map(show)
        .collect();
    assert_eq!(stripped, show_all(&t));
}

#[test]
fn stitch_puts_trace_before_main_and_closes_it() {
    let mut program = Program {
        functions: vec![
            function("helper", vec![constant("z", 0)]),
            Function {
                name: s("main"),
                args: vec![Argument { name: s("c"), arg_type: s("bool") }],
                instrs: vec![effect(EffectOps::Print, &["c"], &[])],
                func_type: None,
            },
        ],
    };
    let trace = Program { functions: vec![function("main", sample_trace())] };
    stitch_trace(&mut program, &trace);
    assert_eq!(program.functions.len(), 2);
    assert_eq!(program.functions[0].name, "helper");
    assert_eq!(show_all(&program.functions[0].instrs), vec!["z = const 0"]);
    let main = &program.functions[1];
    assert_eq!(main.name, "main");
    assert_eq!(main.args.len(), 1);
    assert_eq!(main.args[0].name, "c");
    assert_eq!(main.args[0].arg_type, "bool");
    assert_eq!(
        show_all(&main.instrs),
        vec![
            "a = const 1",
            "speculate",
            "guard c .recover",
            "commit",
            "print a",
            "speculate",
            "b = add a,a",
            "commit",
            "jmp  .trace_end",
            "print c",
            ".trace_end:",
        ]
    );
}

#[test]
fn stitch_without_main_uses_first_function_and_no_end_label() {
    let mut program = Program {
        functions: vec![function("f", vec![constant("x", 3)]), function("g", vec![constant("y", 4)])],
    };
    let trace = Program { functions: vec![function("t", vec![constant("a", 1), effect(EffectOps::Print, &["a"], &[])])] };
    stitch_trace(&mut program, &trace);
    assert_eq!(show_all(&program.functions[0].instrs), vec!["a = const 1", "print a", "x = const 3"]);
    assert_eq!(show_all(&program.functions[1].instrs), vec!["y = const 4"]);
}

#[test]
fn stitch_jump_elsewhere_adds_no_end_label() {
    let mut program = Program { functions: vec![function("main", vec![constant("x", 3)])] };
    let trace = Program { functions: vec![function("main", vec![effect(EffectOps::Jmp, &[], &[".other"])])] };
    stitch_trace(&mut program, &trace);
    assert_eq!(show_all(&program.functions[0].instrs), vec!["jmp  .other", "x = const 3"]);
}

#[test]
fn stitch_picks_last_main() {
    let mut program = Program {
        functions: vec![function("main", vec![constant("x", 1)]), function("main", vec![constant("y", 2)])],
    };
    let trace = Program { functions: vec![function("t", vec![constant("a", 7)])] };
    stitch_trace(&mut program, &trace);
    assert_eq!(show_all(&program.functions[0].instrs), vec!["x = const 1"]);
    assert_eq!(show_all(&program.functions[1].instrs), vec!["a = const 7", "y = const 2"]);
}
