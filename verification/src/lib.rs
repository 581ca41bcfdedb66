//! A verified front end for a small arithmetic-expression language.
//!
//! The pipeline has three stages, each a pure function over its input:
//! a bracket-aware tokenizer, a keyword resolver that turns bare
//! identifiers into constants or function calls, and a precedence-driven
//! tree builder.  Every stage carries a full functional contract stated
//! over ghost models of the data (`TokenModel`, `AstModel`, `ErrorModel`),
//! so the behaviour of the whole front end is pinned down by `spec`
//! functions alone.  Evaluating the resulting tree uses floating-point
//! arithmetic and therefore lives outside this crate.

pub mod ast;
pub mod errors;
pub mod keywords;
pub mod tokenize;

pub use errors::EvalError;
pub use keywords::Function;

use vstd::prelude::*;

verus! {

/// What the whole front end yields for a text: tokenizing, keyword
/// resolution, then tree building, each stage feeding the next.
pub open spec fn expression_pipeline_spec(text: Seq<char>) -> Result<
    crate::ast::AstModel,
    crate::errors::ErrorModel,
> {
    match crate::tokenize::parse_expression_spec(text) {
        Err(e) => Err(e),
        Ok(toks) => crate::ast::build_spec(toks),
    }
}

/// Law: the front end is a pure function of the input text.
///
/// `parse_expression` and `get_ast` each promise a result equal to a
/// `spec` function of the text alone, so any two runs over the same
/// text — re-tokenizing, re-resolving and re-building — yield the same
/// outcome, token for token and node for node.
pub proof fn lemma_pipeline_deterministic(
    text: Seq<char>,
    r1: Result<crate::ast::AstModel, crate::errors::ErrorModel>,
    r2: Result<crate::ast::AstModel, crate::errors::ErrorModel>,
)
    requires
        r1 == expression_pipeline_spec(text),
        r2 == expression_pipeline_spec(text),
    ensures
        r1 == r2,
{
}

/// Law: every tree the whole front end accepts is well formed, so the
/// evaluator's four node shapes — leaf, two-child operator node,
/// arity-many-child function node — cover everything it can be handed.
pub proof fn lemma_pipeline_well_formed(text: Seq<char>)
    ensures
        expression_pipeline_spec(text) matches Ok(n) ==> crate::ast::wf_node(n),
{
    match crate::tokenize::parse_expression_spec(text) {
        Ok(toks) => crate::ast::lemma_build_wf(toks),
        Err(_) => {},
    }
}

} // verus!
