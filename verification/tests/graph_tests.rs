use bril_passes::bril::{find_label, InsnType};
use bril_passes::cfg::Cfg;
use bril_passes::dominance::{count_set, frontier};
use bril_passes::loops::{Block, BlockName};
use bril_passes::names::{add_name, difference_names, has_name, names_from, symmetric_difference_names, union_names};
use bril_passes::skeleton::{opcode_message, registers_pass, Opcode};

fn strs(xs: &[&str]) -> Vec<String> {
    xs.iter().map(|x| x.to_string()).collect()
}

fn sorted(v: &[String]) -> Vec<String> {
    let mut v = v.to_vec();
    v.sort();
    v
}

fn empty_block(i: u32) -> Block {
    Block { name: BlockName(i), instructions: Vec::new() }
}

#[test]
fn new_graph_has_no_lists() {
    let cfg = Cfg::new();
    assert!(cfg.get_predecessors(&0).is_none());
    assert!(cfg.get_successors(&0).is_none());
}

#[test]
fn init_gives_every_block_empty_lists() {
    let mut cfg = Cfg::new();
    cfg.init(&vec![empty_block(0), empty_block(1), empty_block(2)]);
    for b in 0..3u32 {
        assert_eq!(cfg.get_predecessors(&b), Some(&Vec::new()));
        assert_eq!(cfg.get_successors(&b), Some(&Vec::new()));
    }
    assert!(cfg.get_predecessors(&3).is_none());
}

#[test]
fn added_edges_append_in_order() {
    let mut cfg = Cfg::new();
    cfg.add_successor(&0, 2);
    cfg.add_successor(&0, 1);
    cfg.add_predecessor(&2, 0);
    cfg.add_predecessor(&2, 1);
    assert_eq!(cfg.get_successors(&0), Some(&vec![2, 1]));
    assert_eq!(cfg.get_predecessors(&2), Some(&vec![0, 1]));
    assert!(cfg.get_predecessors(&0).is_none());
    assert!(cfg.get_successors(&2).is_none());
}

#[test]
fn find_label_takes_last_block_opening_with_it() {
    let l = |x: &str| InsnType::Label { label: x.to_string() };
    let c = InsnType::Constant { op: "const".to_string(), dest: "a".to_string(), insn_type: "int".to_string(), value: "1".to_string() };
    let blocks = vec![vec![c], vec![l(".x")], vec![l(".y")], vec![l(".x")], vec![]];
    assert_eq!(find_label(&blocks, &".x".to_string()), Some(3));
    assert_eq!(find_label(&blocks, &".y".to_string()), Some(2));
    assert_eq!(find_label(&blocks, &".z".to_string()), None);
}

#[test]
fn count_set_counts_members() {
    assert_eq!(count_set(&vec![true, false, true, true]), 3);
    assert_eq!(count_set(&vec![]), 0);
}

#[test]
fn frontier_of_non_transitive_sets() {
    // Sets where block 2 holds block 1, which block 0 does not dominate
    // through block 2's own set.
    let doms = vec![
        vec![true, true, true, false],
        vec![true, true, true, false],
        vec![true, false, true, false],
        vec![true, true, true, false],
    ];
    let f1 = frontier(&doms, 1);
    assert_eq!(f1.len(), 1);
    assert!(f1.contains(&2));
    assert!(frontier(&doms, 0).is_empty());
    assert!(frontier(&doms, 3).is_empty());
}

#[test]
fn names_have_no_repeats() {
    let v = names_from(&strs(&["a", "b", "a", "c", "b"]));
    assert_eq!(v.len(), 3);
    assert_eq!(sorted(&v), strs(&["a", "b", "c"]));
}

#[test]
fn add_name_keeps_list_distinct() {
    let mut v = strs(&["a"]);
    add_name(&mut v, &"a".to_string());
    assert_eq!(v, strs(&["a"]));
    add_name(&mut v, &"b".to_string());
    assert_eq!(sorted(&v), strs(&["a", "b"]));
    assert!(has_name(&v, &"b".to_string()));
    assert!(!has_name(&v, &"c".to_string()));
}

#[test]
fn set_operations_on_names() {
    let a = strs(&["x", "y", "z"]);
    let b = strs(&["y", "w"]);
    assert_eq!(sorted(&union_names(&a, &b)), strs(&["w", "x", "y", "z"]));
    assert_eq!(sorted(&difference_names(&a, &b)), strs(&["x", "z"]));
    assert_eq!(sorted(&symmetric_difference_names(&a, &b)), strs(&["w", "x", "z"]));
}

#[test]
fn skeleton_pass_name() {
    assert!(registers_pass("skeleton-pass"));
    assert!(!registers_pass("other-pass"));
    assert!(!registers_pass(""));
}

#[test]
fn skeleton_messages() {
    assert_eq!(opcode_message(Opcode::Br), Some("tree branch".to_string()));
    assert_eq!(opcode_message(Opcode::Call), Some("you have called a function:".to_string()));
    assert_eq!(opcode_message(Opcode::CallBr), Some("you have called a function - branch ver".to_string()));
    assert_eq!(opcode_message(Opcode::Other), None);
}

#[test]
fn blocks_are_equal_by_name() {
    let c = InsnType::Constant { op: "const".to_string(), dest: "a".to_string(), insn_type: "int".to_string(), value: "1".to_string() };
    let a = Block { name: BlockName(3), instructions: vec![c] };
    let b = empty_block(3);
    assert!(a == b);
    assert!(a != empty_block(4));
}

#[test]
fn ssa_blocks_are_equal_by_name() {
    let l = InsnType::Label { label: ".x".to_string() };
    let a = bril_passes::ssa::Block { name: BlockName(1), instructions: vec![l], set_instrs: vec![], get_instrs: vec![] };
    let b = bril_passes::ssa::Block { name: BlockName(1), instructions: vec![], set_instrs: vec![], get_instrs: vec![] };
    let c = bril_passes::ssa::Block { name: BlockName(2), instructions: vec![], set_instrs: vec![], get_instrs: vec![] };
    assert!(a == b);
    assert!(b != c);
}

#[test]
fn lists_hold_entries_since_last_covering_init() {
    let mut cfg = Cfg::new();
    cfg.add_predecessor(&7, 1);
    cfg.init(&vec![empty_block(0), empty_block(1)]);
    cfg.add_successor(&0, 1);
    cfg.add_successor(&0, 2);
    cfg.add_predecessor(&1, 0);
    cfg.init(&vec![empty_block(0)]);
    cfg.add_successor(&0, 3);
    cfg.add_predecessor(&7, 4);
    assert_eq!(cfg.get_successors(&0), Some(&vec![3]));
    assert_eq!(cfg.get_predecessors(&1), Some(&vec![0]));
    assert_eq!(cfg.get_successors(&1), Some(&Vec::new()));
    assert_eq!(cfg.get_predecessors(&7), Some(&vec![1, 4]));
    assert!(cfg.get_successors(&7).is_none());
}

#[test]
fn block_names_hash_by_value() {
    let mut seen = std::collections::HashSet::new();
    seen.insert(BlockName(1));
    seen.insert(BlockName(1));
    seen.insert(BlockName(2));
    assert_eq!(seen.len(), 2);
    assert!(seen.contains(&BlockName(2)));
}
