//! The two read-only registries the keyword resolver consults: named
//! functions with their arities, and named constants.
//!
//! Both registries are fixed configuration data.  They are exposed as
//! lookup functions with exact contracts, together with a proof that the
//! two registries are disjoint.

use vstd::prelude::*;
use vstd::string::StringExecFns;

verus! {

/// Which primitive a resolved function token refers to.
#[derive(Debug, Clone, Copy, PartialEq, Eq, Structural)]
pub enum FunctionName {
    Sin,
    Cos,
    Tan,
    Arcsin,
    Arccos,
    Arctan,
    Log,
    Ln,
    Sqrt,
}

/// Which named constant a resolved constant token refers to.
#[derive(Debug, Clone, Copy, PartialEq, Eq, Structural)]
pub enum ConstantName {
    Pi,
    E,
}

/// A function definition: the primitive it names and its fixed arity.
#[derive(Debug, Clone, Copy, PartialEq, Eq, Structural)]
pub struct Function {
    pub name: FunctionName,
    pub argument_count: usize,
}

/// The function registry as a mathematical map from spelling to
/// definition: `sin/1, cos/1, tan/1, arcsin/1, arccos/1, arctan/1,
/// log/2, ln/1, sqrt/1`.
pub open spec fn spec_lookup_function(name: Seq<char>) -> Option<Function> {
    if name == "sin"@ {
        Some(Function { name: FunctionName::Sin, argument_count: 1 })
    } else if name == "cos"@ {
        Some(Function { name: FunctionName::Cos, argument_count: 1 })
    } else if name == "tan"@ {
        Some(Function { name: FunctionName::Tan, argument_count: 1 })
    } else if name == "arcsin"@ {
        Some(Function { name: FunctionName::Arcsin, argument_count: 1 })
    } else if name == "arccos"@ {
        Some(Function { name: FunctionName::Arccos, argument_count: 1 })
    } else if name == "arctan"@ {
        Some(Function { name: FunctionName::Arctan, argument_count: 1 })
    } else if name == "log"@ {
        Some(Function { name: FunctionName::Log, argument_count: 2 })
    } else if name == "ln"@ {
        Some(Function { name: FunctionName::Ln, argument_count: 1 })
    } else if name == "sqrt"@ {
        Some(Function { name: FunctionName::Sqrt, argument_count: 1 })
    } else {
        None
    }
}

/// The constant registry as a mathematical map from spelling to
/// constant: `pi` and `e`.
pub open spec fn spec_lookup_constant(name: Seq<char>) -> Option<ConstantName> {
    if name == "pi"@ {
        Some(ConstantName::Pi)
    } else if name == "e"@ {
        Some(ConstantName::E)
    } else {
        None
    }
}

/// Compares a candidate name with one fixed spelling.
fn str_matches(name: &String, lit: &str) -> (r: bool)
    ensures
        r == (name@ == lit@),
{
    let l = String::from_str(lit);
    *name == l
}

/// Looks a spelling up in the function registry.
pub fn lookup_function(name: &String) -> (r: Option<Function>)
    ensures
        r == spec_lookup_function(name@),
{
    if str_matches(name, "sin") {
        Some(Function { name: FunctionName::Sin, argument_count: 1 })
    } else if str_matches(name, "cos") {
        Some(Function { name: FunctionName::Cos, argument_count: 1 })
    } else if str_matches(name, "tan") {
        Some(Function { name: FunctionName::Tan, argument_count: 1 })
    } else if str_matches(name, "arcsin") {
        Some(Function { name: FunctionName::Arcsin, argument_count: 1 })
    } else if str_matches(name, "arccos") {
        Some(Function { name: FunctionName::Arccos, argument_count: 1 })
    } else if str_matches(name, "arctan") {
        Some(Function { name: FunctionName::Arctan, argument_count: 1 })
    } else if str_matches(name, "log") {
        Some(Function { name: FunctionName::Log, argument_count: 2 })
    } else if str_matches(name, "ln") {
        Some(Function { name: FunctionName::Ln, argument_count: 1 })
    } else if str_matches(name, "sqrt") {
        Some(Function { name: FunctionName::Sqrt, argument_count: 1 })
    } else {
        None
    }
}

/// Looks a spelling up in the constant registry.
pub fn lookup_constant(name: &String) -> (r: Option<ConstantName>)
    ensures
        r == spec_lookup_constant(name@),
{
    if str_matches(name, "pi") {
        Some(ConstantName::Pi)
    } else if str_matches(name, "e") {
        Some(ConstantName::E)
    } else {
        None
    }
}

/// Law: the two registries are disjoint, so no spelling ever resolves to
/// both a function and a constant.
pub proof fn lemma_registries_disjoint(name: Seq<char>)
    ensures
        !(spec_lookup_function(name) is Some && spec_lookup_constant(name) is Some),
{
    reveal_strlit("sin");
    reveal_strlit("cos");
    reveal_strlit("tan");
    reveal_strlit("arcsin");
    reveal_strlit("arccos");
    reveal_strlit("arctan");
    reveal_strlit("log");
    reveal_strlit("ln");
    reveal_strlit("sqrt");
    reveal_strlit("pi");
    reveal_strlit("e");
    assert("sin"@.len() == 3);
    assert("cos"@.len() == 3);
    assert("tan"@.len() == 3);
    assert("arcsin"@.len() == 6);
    assert("arccos"@.len() == 6);
    assert("arctan"@.len() == 6);
    assert("log"@.len() == 3);
    assert("ln"@.len() == 2);
    assert("sqrt"@.len() == 4);
    assert("pi"@.len() == 2);
    assert("e"@.len() == 1);
    assert("ln"@[0] == 'l' && "pi"@[0] == 'p');
}

} // verus!
