use vstd::prelude::*;
use crate::bril::str_eq;

verus! {

/// The kinds of LLVM instruction the skeleton pass reports on.
#[derive(PartialEq, Eq, Structural, Clone, Copy)]
pub enum Opcode {
    Br,
    Call,
    CallBr,
    Other,
}

/// Whether a module pipeline name asks for the skeleton pass.
pub fn registers_pass(name: &str) -> (r: bool)
    ensures
        r == (name@ == "skeleton-pass"@),
{
    str_eq(name, "skeleton-pass")
}

/// The line the pass prints for an instruction of kind `op`, if any.
pub fn opcode_message(op: Opcode) -> (r: Option<String>)
    ensures
        match op {
            Opcode::Br => r matches Some(s) && s@ == "tree branch"@,
            Opcode::Call => r matches Some(s) && s@ == "you have called a function:"@,
            Opcode::CallBr => r matches Some(s) && s@ == "you have called a function - branch ver"@,
            Opcode::Other => r is None,
        },
{
    broadcast use vstd::string::group_string_axioms;
    match op {
        Opcode::Br => Some("tree branch".to_string()),
        Opcode::Call => Some("you have called a function:".to_string()),
        Opcode::CallBr => Some("you have called a function - branch ver".to_string()),
        Opcode::Other => None,
    }
}

} // verus!
