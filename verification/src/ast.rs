//! The precedence-driven tree builder.
//!
//! `get_ast` turns a resolved token sequence into an expression tree by
//! repeatedly splitting on the first operator of the lowest precedence
//! class present; fragments without any explicit operator are implicit
//! multiplication.  Its behaviour is pinned down by `build_spec`.

use vstd::prelude::*;
use vstd::string::StringExecFns;

use crate::errors::ErrorModel;
use crate::errors::EvalError;
use crate::tokenize::Additive;
use crate::tokenize::Multiplicative;
use crate::tokenize::Operator;
use crate::tokenize::Token;
use crate::tokenize::TokenModel;
use crate::tokenize::groups_model;
use crate::tokenize::lemma_groups_model;
use crate::tokenize::lemma_tokens_model;
use crate::tokenize::token_model;
use crate::tokenize::tokens_model;

verus! {

/// A node of the expression tree.  Operators farther down are evaluated
/// first; a leaf is a number or a constant; a function node has one
/// child per argument.
#[derive(Debug)]
pub struct ASTNode {
    pub token: Token,
    pub children: Vec<ASTNode>,
}

/// Ghost mirror of `ASTNode`.
pub struct AstModel {
    pub token: TokenModel,
    pub children: Seq<AstModel>,
}

/// The ghost model of one tree node.
pub open spec fn node_model(n: ASTNode) -> AstModel
    decreases n,
    via node_model_decreases
{
    AstModel { token: token_model(n.token), children: nodes_model(n.children@) }
}

/// The ghost model of a sequence of tree nodes, elementwise.
pub open spec fn nodes_model(s: Seq<ASTNode>) -> Seq<AstModel>
    decreases s,
{
    if s.len() == 0 {
        Seq::empty()
    } else {
        seq![node_model(s[0])] + nodes_model(s.subrange(1, s.len() as int))
    }
}

#[via_fn]
proof fn node_model_decreases(n: ASTNode) {
    assert(decreases_to!(n => n.children));
    assert(decreases_to!(n.children => n.children@));
}

/// The model of a node sequence is its elementwise model.
pub broadcast proof fn lemma_nodes_model(s: Seq<ASTNode>)
    ensures
        #[trigger] nodes_model(s).len() == s.len(),
        forall|i: int| #![trigger nodes_model(s)[i]] 0 <= i < s.len() ==> nodes_model(s)[i]
            == node_model(s[i]),
    decreases s.len(),
{
    if s.len() > 0 {
        lemma_nodes_model(s.subrange(1, s.len() as int));
    }
}

/// Appending one node appends its model.
proof fn lemma_nodes_model_push(s: Seq<ASTNode>, n: ASTNode)
    ensures
        nodes_model(s.push(n)) == nodes_model(s).push(node_model(n)),
{
    broadcast use lemma_nodes_model;

    assert(nodes_model(s.push(n)) =~= nodes_model(s).push(node_model(n)));
}

/// The three explicit operator precedence classes, weakest first.
#[derive(Debug, Clone, Copy, PartialEq, Eq, Structural)]
pub enum OpClass {
    Additive,
    Multiplicative,
    Exponential,
}

/// Whether a token is an operator of the given class.
pub open spec fn in_class(t: TokenModel, k: OpClass) -> bool {
    match k {
        OpClass::Additive => t matches TokenModel::Operator(Operator::Additive(_)),
        OpClass::Multiplicative => t matches TokenModel::Operator(
            Operator::Multiplicative(_),
        ),
        OpClass::Exponential => t matches TokenModel::Operator(Operator::Exponential),
    }
}

/// The position of the first operator of the given class.
pub open spec fn spec_first_in_class(s: Seq<TokenModel>, k: OpClass) -> Option<int>
    decreases s.len(),
{
    if s.len() == 0 {
        None
    } else if in_class(s[0], k) {
        Some(0)
    } else {
        match spec_first_in_class(s.subrange(1, s.len() as int), k) {
            Some(i) => Some(i + 1),
            None => None,
        }
    }
}

/// What `spec_first_in_class` finds: the first operator of the class,
/// if any.
pub proof fn lemma_first_in_class(s: Seq<TokenModel>, k: OpClass)
    ensures
        match spec_first_in_class(s, k) {
            Some(i) => 0 <= i < s.len() && in_class(s[i], k) && forall|j: int|
                0 <= j < i ==> !in_class(#[trigger] s[j], k),
            None => forall|j: int| 0 <= j < s.len() ==> !in_class(#[trigger] s[j], k),
        },
    decreases s.len(),
{
    if s.len() > 0 && !in_class(s[0], k) {
        let sub = s.subrange(1, s.len() as int);
        lemma_first_in_class(sub, k);
        match spec_first_in_class(sub, k) {
            Some(i) => {
                assert forall|j: int| 0 <= j < i + 1 implies !in_class(#[trigger] s[j], k) by {
                    if j > 0 {
                        assert(s[j] == sub[j - 1]);
                    }
                }
            },
            None => {
                assert forall|j: int| 0 <= j < s.len() implies !in_class(
                    #[trigger] s[j],
                    k,
                ) by {
                    if j > 0 {
                        assert(s[j] == sub[j - 1]);
                    }
                }
            },
        }
    }
}

/// The first operator of the class is at `i` when `s[i]` belongs to it
/// and none precedes.
proof fn lemma_first_in_class_is(s: Seq<TokenModel>, k: OpClass, i: int)
    requires
        0 <= i < s.len(),
        in_class(s[i], k),
        forall|j: int| 0 <= j < i ==> !in_class(#[trigger] s[j], k),
    ensures
        spec_first_in_class(s, k) == Some(i),
{
    lemma_first_in_class(s, k);
}

/// What building a tree from a resolved token sequence yields: the full
/// functional specification of `get_ast`.
///
/// An empty fragment is invalid.  A single token is a leaf, a group to
/// recurse into, or a function call whose argument count must match its
/// arity.  A longer fragment splits at the first additive operator, or
/// failing that the first multiplicative, then the first exponential
/// operator; with no operator at all it is an implicit multiplication
/// split after the first token.  Splitting recurses on the right-hand
/// remainder, so chained operators of one class group to the right.
pub open spec fn build_spec(s: Seq<TokenModel>) -> Result<AstModel, ErrorModel>
    decreases s, 1int,
    via build_spec_decreases
{
    if s.len() == 0 {
        Err(ErrorModel::InvalidExpression("Invalid expression"@))
    } else if s.len() == 1 {
        match s[0] {
            TokenModel::Number(_) => Ok(AstModel { token: s[0], children: Seq::empty() }),
            TokenModel::Constant(_) => Ok(AstModel { token: s[0], children: Seq::empty() }),
            TokenModel::Group(g) => build_spec(g),
            TokenModel::Function(f, args) => {
                if args.len() != f.argument_count as nat {
                    Err(ErrorModel::InvalidArgumentCount {
                        expected: f.argument_count as nat,
                        got: args.len(),
                    })
                } else {
                    match build_args(args) {
                        Err(e) => Err(e),
                        Ok(children) => Ok(AstModel { token: s[0], children }),
                    }
                }
            },
            _ => Err(ErrorModel::InvalidExpression("Invalid expression"@)),
        }
    } else {
        match spec_first_in_class(s, OpClass::Additive) {
            Some(i) => match build_spec(s.subrange(0, i)) {
                Err(e) => Err(e),
                Ok(l) => match build_spec(s.subrange(i + 1, s.len() as int)) {
                    Err(e) => Err(e),
                    Ok(r) => Ok(AstModel { token: s[i], children: seq![l, r] }),
                },
            },
            None => match spec_first_in_class(s, OpClass::Multiplicative) {
                Some(i) => match build_spec(s.subrange(0, i)) {
                    Err(e) => Err(e),
                    Ok(l) => match build_spec(s.subrange(i + 1, s.len() as int)) {
                        Err(e) => Err(e),
                        Ok(r) => Ok(AstModel { token: s[i], children: seq![l, r] }),
                    },
                },
                None => match spec_first_in_class(s, OpClass::Exponential) {
                    Some(i) => match build_spec(s.subrange(0, i)) {
                        Err(e) => Err(e),
                        Ok(l) => match build_spec(s.subrange(i + 1, s.len() as int)) {
                            Err(e) => Err(e),
                            Ok(r) => Ok(AstModel { token: s[i], children: seq![l, r] }),
                        },
                    },
                    None => match build_spec(s.subrange(0, 1)) {
                        Err(e) => Err(e),
                        Ok(l) => match build_spec(s.subrange(1, s.len() as int)) {
                            Err(e) => Err(e),
                            Ok(r) => Ok(AstModel {
                                token: TokenModel::Operator(
                                    Operator::Multiplicative(Multiplicative::Multiply),
                                ),
                                children: seq![l, r],
                            }),
                        },
                    },
                },
            },
        }
    }
}

/// Builds one subtree per argument group, left to right.
pub open spec fn build_args(args: Seq<Seq<TokenModel>>) -> Result<Seq<AstModel>, ErrorModel>
    decreases args, 0int,
    via build_args_decreases
{
    if args.len() == 0 {
        Ok(Seq::empty())
    } else {
        match build_spec(args[0]) {
            Err(e) => Err(e),
            Ok(first) => match build_args(args.subrange(1, args.len() as int)) {
                Err(e) => Err(e),
                Ok(rest) => Ok(seq![first] + rest),
            },
        }
    }
}

#[via_fn]
proof fn build_spec_decreases(s: Seq<TokenModel>) {
    if s.len() == 1 {
        match s[0] {
            TokenModel::Group(g) => {
                assert(decreases_to!(s => s[0]));
                assert(decreases_to!(s[0] => g));
            },
            TokenModel::Function(f, args) => {
                assert(decreases_to!(s => s[0]));
                assert(decreases_to!(s[0] => args));
            },
            _ => {},
        }
    } else if s.len() >= 2 {
        lemma_first_in_class(s, OpClass::Additive);
        lemma_first_in_class(s, OpClass::Multiplicative);
        lemma_first_in_class(s, OpClass::Exponential);
    }
}

#[via_fn]
proof fn build_args_decreases(args: Seq<Seq<TokenModel>>) {
    if args.len() > 0 {
        assert(decreases_to!(args => args[0]));
    }
}

/// A well-formed tree node as the builder produces it: a leaf is a
/// number or a constant and has no children, an operator node has
/// exactly two, and a function node has one child per declared
/// argument.  No other token kind appears at a node.
pub open spec fn wf_node(n: AstModel) -> bool
    decreases n,
{
    match n.token {
        TokenModel::Number(_) => n.children.len() == 0,
        TokenModel::Constant(_) => n.children.len() == 0,
        TokenModel::Operator(_) => n.children.len() == 2 && wf_nodes(n.children),
        TokenModel::Function(f, _) => n.children.len() == f.argument_count as nat && wf_nodes(
            n.children,
        ),
        _ => false,
    }
}

/// A sequence of well-formed tree nodes.
pub open spec fn wf_nodes(s: Seq<AstModel>) -> bool
    decreases s,
{
    if s.len() == 0 {
        true
    } else {
        wf_node(s[0]) && wf_nodes(s.subrange(1, s.len() as int))
    }
}

/// Law: every tree the builder accepts is well formed, so an evaluator
/// that handles leaves, two-child operator nodes and arity-many-child
/// function nodes handles every tree the builder can hand it.
pub proof fn lemma_build_wf(s: Seq<TokenModel>)
    ensures
        build_spec(s) matches Ok(n) ==> wf_node(n),
    decreases s, 1int,
{
    if s.len() == 1 {
        match s[0] {
            TokenModel::Group(g) => {
                assert(decreases_to!(s => s[0]));
                assert(decreases_to!(s[0] => g));
                lemma_build_wf(g);
            },
            TokenModel::Function(f, args) => {
                assert(decreases_to!(s => s[0]));
                assert(decreases_to!(s[0] => args));
                lemma_build_args_wf(args);
            },
            _ => {},
        }
    } else if s.len() >= 2 {
        lemma_first_in_class(s, OpClass::Additive);
        lemma_first_in_class(s, OpClass::Multiplicative);
        lemma_first_in_class(s, OpClass::Exponential);
        match spec_first_in_class(s, OpClass::Additive) {
            Some(i) => {
                lemma_split_wf(s, i);
            },
            None => match spec_first_in_class(s, OpClass::Multiplicative) {
                Some(i) => {
                    lemma_split_wf(s, i);
                },
                None => match spec_first_in_class(s, OpClass::Exponential) {
                    Some(i) => {
                        lemma_split_wf(s, i);
                    },
                    None => {
                        let left = s.subrange(0, 1);
                        let right = s.subrange(1, s.len() as int);
                        assert(decreases_to!(s => left));
                        assert(decreases_to!(s => right));
                        lemma_build_wf(left);
                        lemma_build_wf(right);
                        match build_spec(left) {
                            Ok(l) => match build_spec(right) {
                                Ok(r) => lemma_pair_wf(l, r),
                                Err(_) => {},
                            },
                            Err(_) => {},
                        }
                    },
                },
            },
        }
    }
}

/// Both halves of a binary split at `i` build well-formed subtrees.
proof fn lemma_split_wf(s: Seq<TokenModel>, i: int)
    requires
        0 <= i < s.len(),
        s.len() >= 2,
    ensures
        build_spec(s.subrange(0, i)) matches Ok(l) ==> wf_node(l),
        build_spec(s.subrange(i + 1, s.len() as int)) matches Ok(r) ==> wf_node(r),
        (build_spec(s.subrange(0, i)) is Ok && build_spec(
            s.subrange(i + 1, s.len() as int),
        ) is Ok) ==> wf_nodes(
            seq![
                build_spec(s.subrange(0, i))->Ok_0,
                build_spec(s.subrange(i + 1, s.len() as int))->Ok_0,
            ],
        ),
    decreases s, 0int,
{
    let left = s.subrange(0, i);
    let right = s.subrange(i + 1, s.len() as int);
    assert(decreases_to!(s => left));
    assert(decreases_to!(s => right));
    lemma_build_wf(left);
    lemma_build_wf(right);
    match build_spec(left) {
        Ok(l) => match build_spec(right) {
            Ok(r) => lemma_pair_wf(l, r),
            Err(_) => {},
        },
        Err(_) => {},
    }
}

/// A pair of well-formed nodes is a well-formed child sequence.
proof fn lemma_pair_wf(l: AstModel, r: AstModel)
    requires
        wf_node(l),
        wf_node(r),
    ensures
        wf_nodes(seq![l, r]),
{
    let cs = seq![l, r];
    assert(cs[0] == l);
    assert(cs.subrange(1, 2) =~= seq![r]);
    assert(seq![r][0] == r);
    assert(seq![r].subrange(1, 1) =~= Seq::<AstModel>::empty());
    assert(wf_nodes(Seq::<AstModel>::empty()));
    assert(wf_nodes(seq![r]));
}

/// Every argument group builds a well-formed subtree, one per group.
proof fn lemma_build_args_wf(args: Seq<Seq<TokenModel>>)
    ensures
        build_args(args) matches Ok(cs) ==> wf_nodes(cs) && cs.len() == args.len(),
    decreases args, 0int,
{
    if args.len() > 0 {
        assert(decreases_to!(args => args[0]));
        lemma_build_wf(args[0]);
        lemma_build_args_wf(args.subrange(1, args.len() as int));
        match build_spec(args[0]) {
            Ok(first) => match build_args(args.subrange(1, args.len() as int)) {
                Ok(rest) => {
                    let r = seq![first] + rest;
                    assert(r[0] == first);
                    assert(r.subrange(1, r.len() as int) =~= rest);
                },
                Err(_) => {},
            },
            Err(_) => {},
        }
    }
}

/// The model of an executable tree-building result.
pub open spec fn ast_result_model(r: Result<ASTNode, EvalError>) -> Result<
    AstModel,
    ErrorModel,
> {
    match r {
        Ok(n) => Ok(node_model(n)),
        Err(e) => Err(crate::errors::error_model(e)),
    }
}

/// Finds the first token that is an operator of the given class.
fn find_first_in_class(tokens: &[Token], k: OpClass) -> (r: Option<usize>)
    ensures
        match r {
            Some(i) => spec_first_in_class(tokens_model(tokens@), k) == Some(i as int),
            None => spec_first_in_class(tokens_model(tokens@), k) is None,
        },
{
    broadcast use lemma_tokens_model;

    let ghost s = tokens_model(tokens@);
    let mut i: usize = 0;
    while i < tokens.len()
        invariant
            i <= tokens@.len(),
            s == tokens_model(tokens@),
            s.len() == tokens@.len(),
            forall|j: int| 0 <= j < i ==> !in_class(#[trigger] s[j], k),
        decreases tokens@.len() - i,
    {
        broadcast use lemma_tokens_model;

        proof {
            assert(tokens_model(tokens@)[i as int] == token_model(tokens@[i as int]));
        }
        let matched = match (&tokens[i], k) {
            (Token::Operator(Operator::Additive(_)), OpClass::Additive) => true,
            (Token::Operator(Operator::Multiplicative(_)), OpClass::Multiplicative) => true,
            (Token::Operator(Operator::Exponential), OpClass::Exponential) => true,
            _ => false,
        };
        if matched {
            proof {
                lemma_first_in_class_is(s, k, i as int);
            }
            return Some(i);
        }
        i = i + 1;
    }
    proof {
        lemma_first_in_class(s, k);
    }
    None
}

/// Creates the expression tree from the tokens, exactly as `build_spec`
/// says.
pub fn get_ast(tokens: &[Token]) -> (r: Result<ASTNode, EvalError>)
    ensures
        ast_result_model(r) == build_spec(tokens_model(tokens@)),
{
    construct_ast(tokens)
}

/// Recursively parses the tokens into the expression tree.
#[verifier::rlimit(80)]
fn construct_ast(tokens: &[Token]) -> (r: Result<ASTNode, EvalError>)
    ensures
        ast_result_model(r) == build_spec(tokens_model(tokens@)),
    decreases tokens_model(tokens@),
{
    broadcast use lemma_tokens_model, lemma_groups_model, lemma_nodes_model;

    let ghost s = tokens_model(tokens@);
    if tokens.len() == 1 {
        match &tokens[0] {
            Token::Number(lit) => {
                let node = ASTNode { token: Token::Number(lit.clone()), children: Vec::new() };
                proof {
                    assert(nodes_model(node.children@) =~= Seq::<AstModel>::empty());
                }
                Ok(node)
            },
            Token::Constant(c) => {
                let node = ASTNode { token: Token::Constant(*c), children: Vec::new() };
                proof {
                    assert(nodes_model(node.children@) =~= Seq::<AstModel>::empty());
                }
                Ok(node)
            },
            Token::InnerExpression(inner) => {
                proof {
                    assert(decreases_to!(s => s[0]));
                    assert(s[0] == token_model(tokens@[0]));
                    assert(decreases_to!(s[0] => tokens_model(inner@)));
                }
                construct_ast(inner.as_slice())
            },
            Token::Function(f, args) => {
                proof {
                    assert(tokens_model(tokens@)[0] == token_model(tokens@[0]));
                }
                if args.len() != f.argument_count {
                    proof {
                        assert(tokens_model(tokens@).len() == tokens@.len());
                        assert(groups_model(args@).len() == args@.len());
                    }
                    return Err(EvalError::InvalidArgumentCount {
                        expected: f.argument_count,
                        got: args.len(),
                    });
                }
                let ghost am = groups_model(args@);
                let mut children: Vec<ASTNode> = Vec::new();
                let mut k: usize = 0;
                proof {
                    assert(am.subrange(0, am.len() as int) =~= am);
                    assert(nodes_model(children@) =~= Seq::<AstModel>::empty());
                    match build_args(am) {
                        Ok(rest) => {
                            assert(nodes_model(children@) + rest =~= rest);
                        },
                        Err(_) => {},
                    }
                }
                while k < args.len()
                    invariant
                        k <= args@.len(),
                        s == tokens_model(tokens@),
                        s.len() == 1,
                        tokens@.len() == 1,
                        tokens@[0] matches Token::Function(ff, aa) && aa@ == args@
                            && groups_model(aa@) == am && am.len() == ff.argument_count as nat,
                        am.len() == args@.len(),
                        build_args(am) == (match build_args(
                            am.subrange(k as int, am.len() as int),
                        ) {
                            Ok(rest) => Ok::<Seq<AstModel>, ErrorModel>(
                                nodes_model(children@) + rest,
                            ),
                            Err(e) => Err::<Seq<AstModel>, ErrorModel>(e),
                        }),
                    decreases args@.len() - k,
                {
                    broadcast use lemma_tokens_model, lemma_groups_model, lemma_nodes_model;

                    let ghost subargs = am.subrange(k as int, am.len() as int);
                    proof {
                        assert(subargs[0] == am[k as int]);
                        assert(subargs.subrange(1, subargs.len() as int) =~= am.subrange(
                            k as int + 1,
                            am.len() as int,
                        ));
                        assert(decreases_to!(s => s[0]));
                        assert(s[0] == token_model(tokens@[0]));
                        assert(decreases_to!(s[0] => am));
                        assert(decreases_to!(am => am[k as int]));
                        assert(am[k as int] == tokens_model(args@[k as int]@));
                    }
                    let ghost children_pre = children@;
                    match construct_ast(args[k].as_slice()) {
                        Err(e) => {
                            proof {
                                assert(tokens_model(tokens@)[0] == token_model(tokens@[0]));
                            }
                            return Err(e);
                        },
                        Ok(child) => {
                            proof {
                                lemma_nodes_model_push(children_pre, child);
                                match build_args(am.subrange(k as int + 1, am.len() as int)) {
                                    Ok(rest2) => {
                                        assert(nodes_model(children_pre) + (seq![
                                            node_model(child),
                                        ] + rest2) =~= nodes_model(children_pre).push(
                                            node_model(child),
                                        ) + rest2);
                                    },
                                    Err(_) => {},
                                }
                            }
                            children.push(child);
                        },
                    }
                    k = k + 1;
                }
                proof {
                    assert(am.subrange(am.len() as int, am.len() as int) =~= Seq::<
                        Seq<TokenModel>,
                    >::empty());
                    assert(nodes_model(children@) + Seq::<AstModel>::empty() =~= nodes_model(
                        children@,
                    ));
                    assert(build_args(am) == Ok::<Seq<AstModel>, ErrorModel>(
                        nodes_model(children@),
                    ));
                }
                let token_copy = crate::tokenize::dup_token(&tokens[0]);
                Ok(ASTNode { token: token_copy, children })
            },
            _ => Err(EvalError::InvalidExpression(String::from_str("Invalid expression"))),
        }
    } else if tokens.len() == 0 {
        Err(EvalError::InvalidExpression(String::from_str("Invalid expression")))
    } else {
        let mut split = find_first_in_class(tokens, OpClass::Additive);
        if split.is_none() {
            split = find_first_in_class(tokens, OpClass::Multiplicative);
        }
        if split.is_none() {
            split = find_first_in_class(tokens, OpClass::Exponential);
        }
        match split {
            Some(i) => {
                proof {
                    lemma_first_in_class(s, OpClass::Additive);
                    lemma_first_in_class(s, OpClass::Multiplicative);
                    lemma_first_in_class(s, OpClass::Exponential);
                    assert(tokens_model(tokens@.subrange(0, i as int)) =~= s.subrange(
                        0,
                        i as int,
                    ));
                    assert(tokens_model(
                        tokens@.subrange(i as int + 1, tokens@.len() as int),
                    ) =~= s.subrange(i as int + 1, s.len() as int));
                    assert(decreases_to!(s => s.subrange(0, i as int)));
                    assert(decreases_to!(s => s.subrange(i as int + 1, s.len() as int)));
                }
                let left = match construct_ast(vstd::slice::slice_subrange(tokens, 0, i)) {
                    Err(e) => {
                        return Err(e);
                    },
                    Ok(l) => l,
                };
                let right = match construct_ast(
                    vstd::slice::slice_subrange(tokens, i + 1, tokens.len()),
                ) {
                    Err(e) => {
                        return Err(e);
                    },
                    Ok(r) => r,
                };
                let op_token = crate::tokenize::dup_token(&tokens[i]);
                let mut children: Vec<ASTNode> = Vec::new();
                children.push(left);
                children.push(right);
                let node = ASTNode { token: op_token, children };
                proof {
                    assert(nodes_model(node.children@) =~= seq![
                        node_model(node.children@[0]),
                        node_model(node.children@[1]),
                    ]);
                }
                Ok(node)
            },
            None => {
                proof {
                    assert(tokens_model(tokens@.subrange(0, 1)) =~= s.subrange(0, 1));
                    assert(tokens_model(tokens@.subrange(1, tokens@.len() as int))
                        =~= s.subrange(1, s.len() as int));
                    assert(decreases_to!(s => s.subrange(0, 1)));
                    assert(decreases_to!(s => s.subrange(1, s.len() as int)));
                }
                let left = match construct_ast(vstd::slice::slice_subrange(tokens, 0, 1)) {
                    Err(e) => {
                        return Err(e);
                    },
                    Ok(l) => l,
                };
                let right = match construct_ast(
                    vstd::slice::slice_subrange(tokens, 1, tokens.len()),
                ) {
                    Err(e) => {
                        return Err(e);
                    },
                    Ok(r) => r,
                };
                let op_token = Token::Operator(Operator::Multiplicative(
                    Multiplicative::Multiply,
                ));
                let mut children: Vec<ASTNode> = Vec::new();
                children.push(left);
                children.push(right);
                let node = ASTNode { token: op_token, children };
                proof {
                    assert(nodes_model(node.children@) =~= seq![
                        node_model(node.children@[0]),
                        node_model(node.children@[1]),
                    ]);
                }
                Ok(node)
            },
        }
    }
}

} // verus!
