//! The tokenizer and the keyword resolver.
//!
//! `parse_tokens` scans the input text one character at a time into a
//! nested token sequence; `parse_keywords` then resolves bare
//! identifiers against the two registries; `parse_expression` chains the
//! two.  Each function's behaviour is pinned down by a `spec` function
//! over ghost models: `tokenize_spec` and `resolve_spec`.

use vstd::prelude::*;
use vstd::string::StrSliceExecFns;
use vstd::string::StringExecFns;

use crate::errors::ErrorModel;
use crate::errors::EvalError;
use crate::keywords::ConstantName;
use crate::keywords::Function;
use crate::keywords::lookup_constant;
use crate::keywords::lookup_function;
use crate::keywords::spec_lookup_constant;
use crate::keywords::spec_lookup_function;

verus! {

/// One symbol of the expression language.
#[derive(Debug, PartialEq)]
pub enum Token {
    /// A numeric literal, kept as the exact digits-and-point text that
    /// was scanned.
    Number(String),
    /// A resolved named constant.
    Constant(ConstantName),
    /// An arithmetic operator.
    Operator(Operator),
    /// An argument delimiter, `,` or `;`.
    Separator,
    /// A resolved function call: the definition and one token sequence
    /// per supplied argument.
    Function(Function, Vec<Vec<Token>>),
    /// A bare identifier that the resolver has not yet looked up.
    Keyword(String),
    /// The tokens from an expression inside parentheses.
    InnerExpression(Vec<Token>),
}

/// An arithmetic operator.
#[derive(Debug, Clone, Copy, PartialEq, Eq, Structural)]
pub enum Operator {
    Additive(Additive),
    Multiplicative(Multiplicative),
    Exponential,
}

/// The additive operators, add and subtract.
#[derive(Debug, Clone, Copy, PartialEq, Eq, Structural)]
pub enum Additive {
    Add,
    Subtract,
}

/// The multiplicative operators, multiply and divide.
#[derive(Debug, Clone, Copy, PartialEq, Eq, Structural)]
pub enum Multiplicative {
    Multiply,
    Divide,
}

/// Ghost mirror of `Token`: strings become character sequences and
/// vectors become mathematical sequences.  A parenthesized
/// sub-expression is a `Group`.
pub enum TokenModel {
    Number(Seq<char>),
    Constant(ConstantName),
    Operator(Operator),
    Separator,
    Function(Function, Seq<Seq<TokenModel>>),
    Keyword(Seq<char>),
    Group(Seq<TokenModel>),
}

/// The ghost model of one token.
pub open spec fn token_model(t: Token) -> TokenModel
    decreases t,
    via token_model_decreases
{
    match t {
        Token::Number(s) => TokenModel::Number(s@),
        Token::Constant(c) => TokenModel::Constant(c),
        Token::Operator(op) => TokenModel::Operator(op),
        Token::Separator => TokenModel::Separator,
        Token::Function(f, args) => TokenModel::Function(f, groups_model(args@)),
        Token::Keyword(s) => TokenModel::Keyword(s@),
        Token::InnerExpression(v) => TokenModel::Group(tokens_model(v@)),
    }
}

/// The ghost model of a token sequence, elementwise.
pub open spec fn tokens_model(s: Seq<Token>) -> Seq<TokenModel>
    decreases s,
{
    if s.len() == 0 {
        Seq::empty()
    } else {
        seq![token_model(s[0])] + tokens_model(s.subrange(1, s.len() as int))
    }
}

/// The ghost model of a sequence of argument groups, elementwise.
pub open spec fn groups_model(s: Seq<Vec<Token>>) -> Seq<Seq<TokenModel>>
    decreases s,
    via groups_model_decreases
{
    if s.len() == 0 {
        Seq::empty()
    } else {
        seq![tokens_model(s[0]@)] + groups_model(s.subrange(1, s.len() as int))
    }
}

#[via_fn]
proof fn token_model_decreases(t: Token) {
    match t {
        Token::Function(f, args) => {
            assert(decreases_to!(t => args));
            assert(decreases_to!(args => args@));
        }
        Token::InnerExpression(v) => {
            assert(decreases_to!(t => v));
            assert(decreases_to!(v => v@));
        }
        _ => {}
    }
}

#[via_fn]
proof fn groups_model_decreases(s: Seq<Vec<Token>>) {
    if s.len() > 0 {
        assert(decreases_to!(s => s[0]));
        assert(decreases_to!(s[0] => s[0]@));
    }
}

/// The model of a sequence is its elementwise model.
pub broadcast proof fn lemma_tokens_model(s: Seq<Token>)
    ensures
        #[trigger] tokens_model(s).len() == s.len(),
        forall|i: int| #![trigger tokens_model(s)[i]] 0 <= i < s.len() ==> tokens_model(s)[i]
            == token_model(s[i]),
    decreases s.len(),
{
    if s.len() > 0 {
        lemma_tokens_model(s.subrange(1, s.len() as int));
    }
}

/// The model of a sequence of argument groups is its elementwise model.
pub broadcast proof fn lemma_groups_model(s: Seq<Vec<Token>>)
    ensures
        #[trigger] groups_model(s).len() == s.len(),
        forall|i: int| #![trigger groups_model(s)[i]] 0 <= i < s.len() ==> groups_model(s)[i]
            == tokens_model(s[i]@),
    decreases s.len(),
{
    if s.len() > 0 {
        lemma_groups_model(s.subrange(1, s.len() as int));
    }
}

/// The tokenizer's state after some prefix of the input: the stack of
/// open scopes (outermost first, innermost last), the pending numeric
/// literal, and the pending identifier.
pub struct ScanState {
    pub scopes: Seq<Seq<TokenModel>>,
    pub num: Seq<char>,
    pub kword: Seq<char>,
}

/// A digit or the decimal point: the characters that extend a pending
/// numeric literal.
pub open spec fn spec_is_number_char(c: char) -> bool {
    c == '.' || (48 <= c as u32 && c as u32 <= 57)
}

/// An ASCII letter: the characters that extend a pending identifier.
pub open spec fn spec_is_letter(c: char) -> bool {
    (65 <= c as u32 && c as u32 <= 90) || (97 <= c as u32 && c as u32 <= 122)
}

/// The adjacency rule: the pairs of neighbouring tokens that make an
/// expression invalid, with the diagnostic each produces.
pub open spec fn adjacency_error(a: TokenModel, b: TokenModel) -> Option<Seq<char>> {
    match (a, b) {
        (TokenModel::Number(_), TokenModel::Number(_)) => Some("Two numbers in a row"@),
        (TokenModel::Operator(_), TokenModel::Operator(_)) => Some("Two operators in a row"@),
        (TokenModel::Operator(_), TokenModel::Separator) => Some("Operator followed by separator"@),
        (TokenModel::Separator, TokenModel::Operator(_)) => Some("Separator followed by operator"@),
        (TokenModel::Separator, TokenModel::Separator) => Some("Two separators in a row"@),
        _ => None,
    }
}

/// Appends a token to one scope and applies the adjacency rule to the
/// scope's last two tokens.
pub open spec fn spec_push_checked(scope: Seq<TokenModel>, t: TokenModel) -> Result<
    Seq<TokenModel>,
    ErrorModel,
> {
    let s2 = scope.push(t);
    if s2.len() >= 2 {
        match adjacency_error(s2[s2.len() - 2], s2[s2.len() - 1]) {
            Some(msg) => Err(ErrorModel::InvalidExpression(msg)),
            None => Ok(s2),
        }
    } else {
        Ok(s2)
    }
}

/// Appends a token to the innermost scope, with the adjacency check.
pub open spec fn spec_push_top(scopes: Seq<Seq<TokenModel>>, t: TokenModel) -> Result<
    Seq<Seq<TokenModel>>,
    ErrorModel,
> {
    let k = scopes.len() - 1;
    match spec_push_checked(scopes[k], t) {
        Ok(sc) => Ok(scopes.update(k, sc)),
        Err(e) => Err(e),
    }
}

/// Flushes a pending numeric literal, if any, into the innermost scope.
pub open spec fn spec_flush_number(scopes: Seq<Seq<TokenModel>>, num: Seq<char>) -> Result<
    (Seq<Seq<TokenModel>>, Seq<char>),
    ErrorModel,
> {
    if num.len() == 0 {
        Ok((scopes, num))
    } else {
        match spec_push_top(scopes, TokenModel::Number(num)) {
            Ok(sc) => Ok((sc, Seq::empty())),
            Err(e) => Err(e),
        }
    }
}

/// Flushes a pending identifier, if any, into the innermost scope.
pub open spec fn spec_flush_keyword(scopes: Seq<Seq<TokenModel>>, kword: Seq<char>) -> Result<
    (Seq<Seq<TokenModel>>, Seq<char>),
    ErrorModel,
> {
    if kword.len() == 0 {
        Ok((scopes, kword))
    } else {
        match spec_push_top(scopes, TokenModel::Keyword(kword)) {
            Ok(sc) => Ok((sc, Seq::empty())),
            Err(e) => Err(e),
        }
    }
}

/// Closes the innermost scope: its contents become a single `Group`
/// token of the enclosing scope.  When only the outermost scope exists,
/// an empty scope is synthesized beneath it first, so everything
/// accumulated so far becomes the group's contents.
pub open spec fn spec_close_scope(scopes: Seq<Seq<TokenModel>>) -> Seq<Seq<TokenModel>> {
    if scopes.len() <= 1 {
        seq![seq![TokenModel::Group(scopes[0])]]
    } else {
        let n = scopes.len() as int;
        scopes.subrange(0, n - 2).push(scopes[n - 2].push(TokenModel::Group(scopes[n - 1])))
    }
}

/// The effect of one scanned character on the state, after any pending
/// literal or identifier has been flushed.
pub open spec fn spec_apply_symbol(st: ScanState, c: char) -> Result<ScanState, ErrorModel> {
    if c == '+' {
        spec_push_operator(st, Operator::Additive(Additive::Add))
    } else if c == '-' {
        spec_push_operator(st, Operator::Additive(Additive::Subtract))
    } else if c == '*' {
        spec_push_operator(st, Operator::Multiplicative(Multiplicative::Multiply))
    } else if c == '/' {
        spec_push_operator(st, Operator::Multiplicative(Multiplicative::Divide))
    } else if c == '^' {
        spec_push_operator(st, Operator::Exponential)
    } else if c == ',' || c == ';' {
        match spec_push_top(st.scopes, TokenModel::Separator) {
            Ok(sc) => Ok(ScanState { scopes: sc, ..st }),
            Err(e) => Err(e),
        }
    } else if c == '(' {
        Ok(ScanState { scopes: st.scopes.push(Seq::empty()), ..st })
    } else if c == ')' {
        Ok(ScanState { scopes: spec_close_scope(st.scopes), ..st })
    } else {
        Ok(st)
    }
}

/// Pushes one operator token into the innermost scope.
pub open spec fn spec_push_operator(st: ScanState, op: Operator) -> Result<ScanState, ErrorModel> {
    match spec_push_top(st.scopes, TokenModel::Operator(op)) {
        Ok(sc) => Ok(ScanState { scopes: sc, ..st }),
        Err(e) => Err(e),
    }
}

/// The tokenizer's transition for one scanned character.
pub open spec fn spec_step(st: ScanState, c: char) -> Result<ScanState, ErrorModel> {
    if spec_is_number_char(c) {
        Ok(ScanState { num: st.num.push(c), ..st })
    } else {
        match spec_flush_number(st.scopes, st.num) {
            Err(e) => Err(e),
            Ok(p) => {
                let st1 = ScanState { scopes: p.0, num: p.1, kword: st.kword };
                if spec_is_letter(c) {
                    Ok(ScanState { kword: st1.kword.push(c), ..st1 })
                } else {
                    match spec_flush_keyword(st1.scopes, st1.kword) {
                        Err(e) => Err(e),
                        Ok(q) => spec_apply_symbol(
                            ScanState { scopes: q.0, num: st1.num, kword: q.1 },
                            c,
                        ),
                    }
                }
            }
        }
    }
}

/// The state before any character has been scanned: one empty outermost
/// scope and no pending buffers.
pub open spec fn spec_init_state() -> ScanState {
    ScanState { scopes: seq![Seq::empty()], num: Seq::empty(), kword: Seq::empty() }
}

/// The tokenizer's state after the first `n` characters of `s`, or the
/// first error it raised.
pub open spec fn spec_run(s: Seq<char>, n: int) -> Result<ScanState, ErrorModel>
    decreases n,
{
    if n <= 0 {
        Ok(spec_init_state())
    } else {
        match spec_run(s, n - 1) {
            Err(e) => Err(e),
            Ok(st) => spec_step(st, s[n - 1]),
        }
    }
}

/// Collapses all scopes still open at end of input, innermost first,
/// each becoming a `Group` token of its parent, as if the missing `)`
/// characters had been present.
pub open spec fn spec_collapse(scopes: Seq<Seq<TokenModel>>) -> Seq<TokenModel>
    decreases scopes.len(),
{
    if scopes.len() <= 1 {
        scopes[0]
    } else {
        let n = scopes.len() as int;
        spec_collapse(
            scopes.subrange(0, n - 2).push(scopes[n - 2].push(TokenModel::Group(scopes[n - 1]))),
        )
    }
}

/// End of input: flush both pending buffers, then collapse the open
/// scopes into the outermost one.
pub open spec fn spec_finalize(st: ScanState) -> Result<Seq<TokenModel>, ErrorModel> {
    match spec_flush_number(st.scopes, st.num) {
        Err(e) => Err(e),
        Ok(p) => match spec_flush_keyword(p.0, st.kword) {
            Err(e) => Err(e),
            Ok(q) => Ok(spec_collapse(q.0)),
        },
    }
}

/// What tokenizing a text yields: the full functional specification of
/// `parse_tokens`.
pub open spec fn tokenize_spec(s: Seq<char>) -> Result<Seq<TokenModel>, ErrorModel> {
    match spec_run(s, s.len() as int) {
        Err(e) => Err(e),
        Ok(st) => spec_finalize(st),
    }
}

/// The model of an executable token-sequence result.
pub open spec fn tokens_result_model(r: Result<Vec<Token>, EvalError>) -> Result<
    Seq<TokenModel>,
    ErrorModel,
> {
    match r {
        Ok(v) => Ok(tokens_model(v@)),
        Err(e) => Err(crate::errors::error_model(e)),
    }
}

/// Once the scan has failed, every longer prefix fails the same way.
proof fn lemma_run_error_persists(s: Seq<char>, i: int, j: int)
    requires
        0 <= i <= j,
        spec_run(s, i) is Err,
    ensures
        spec_run(s, j) == spec_run(s, i),
    decreases j - i,
{
    if j > i {
        lemma_run_error_persists(s, i, j - 1);
    }
}

/// Appending one token appends its model.
proof fn lemma_tokens_model_push(s: Seq<Token>, t: Token)
    ensures
        tokens_model(s.push(t)) == tokens_model(s).push(token_model(t)),
{
    broadcast use lemma_tokens_model;

    assert(tokens_model(s.push(t)) =~= tokens_model(s).push(token_model(t)));
}

/// The executable adjacency check on two neighbouring tokens.
fn check_adjacent(a: &Token, b: &Token) -> (r: Option<EvalError>)
    ensures
        match r {
            Some(e) => adjacency_error(token_model(*a), token_model(*b)) matches Some(msg)
                && crate::errors::error_model(e) == ErrorModel::InvalidExpression(msg),
            None => adjacency_error(token_model(*a), token_model(*b)) is None,
        },
{
    match (a, b) {
        (Token::Number(_), Token::Number(_)) => Some(
            EvalError::InvalidExpression(String::from_str("Two numbers in a row")),
        ),
        (Token::Operator(_), Token::Operator(_)) => Some(
            EvalError::InvalidExpression(String::from_str("Two operators in a row")),
        ),
        (Token::Operator(_), Token::Separator) => Some(
            EvalError::InvalidExpression(String::from_str("Operator followed by separator")),
        ),
        (Token::Separator, Token::Operator(_)) => Some(
            EvalError::InvalidExpression(String::from_str("Separator followed by operator")),
        ),
        (Token::Separator, Token::Separator) => Some(
            EvalError::InvalidExpression(String::from_str("Two separators in a row")),
        ),
        _ => None,
    }
}

/// Appends a token to the innermost scope and applies the adjacency
/// check, exactly as `spec_push_top` says.
fn push_top_checked(scopes: &mut Vec<Vec<Token>>, t: Token) -> (r: Result<(), EvalError>)
    requires
        old(scopes)@.len() >= 1,
    ensures
        match r {
            Ok(_) => spec_push_top(groups_model(old(scopes)@), token_model(t)) == Ok::<
                _,
                ErrorModel,
            >(groups_model(final(scopes)@)) && final(scopes)@.len() == old(scopes)@.len(),
            Err(e) => spec_push_top(groups_model(old(scopes)@), token_model(t)) == Err::<
                Seq<Seq<TokenModel>>,
                _,
            >(crate::errors::error_model(e)),
        },
{
    broadcast use lemma_tokens_model, lemma_groups_model;

    let ghost old_scopes = scopes@;
    let ghost tm = token_model(t);
    let mut top = scopes.pop().unwrap();
    let ghost top_old = top@;
    top.push(t);
    proof {
        lemma_tokens_model_push(top_old, t);
    }
    let n = top.len();
    let check = if n >= 2 {
        check_adjacent(&top[n - 2], &top[n - 1])
    } else {
        None
    };
    scopes.push(top);
    proof {
        let k = old_scopes.len() - 1;
        assert(top_old == old_scopes[k]@);
        assert(tokens_model(top_old.push(t)) == groups_model(old_scopes)[k].push(tm));
        assert(groups_model(scopes@) =~= groups_model(old_scopes).update(
            k,
            groups_model(old_scopes)[k].push(tm),
        ));
    }
    match check {
        Some(e) => Err(e),
        None => Ok(()),
    }
}

/// Flushes a pending numeric literal into the innermost scope, exactly
/// as `spec_flush_number` says.
fn flush_pending_number(scopes: &mut Vec<Vec<Token>>, num: &mut String) -> (r: Result<
    (),
    EvalError,
>)
    requires
        old(scopes)@.len() >= 1,
    ensures
        match r {
            Ok(_) => spec_flush_number(groups_model(old(scopes)@), old(num)@) == Ok::<
                _,
                ErrorModel,
            >((groups_model(final(scopes)@), final(num)@)) && final(scopes)@.len() == old(scopes)@.len(),
            Err(e) => spec_flush_number(groups_model(old(scopes)@), old(num)@) == Err::<
                (Seq<Seq<TokenModel>>, Seq<char>),
                _,
            >(crate::errors::error_model(e)),
        },
{
    if num.as_str().is_empty() {
        Ok(())
    } else {
        let mut lit = String::new();
        core::mem::swap(&mut lit, num);
        push_top_checked(scopes, Token::Number(lit))
    }
}

/// Flushes a pending identifier into the innermost scope, exactly as
/// `spec_flush_keyword` says.
fn flush_pending_keyword(scopes: &mut Vec<Vec<Token>>, kword: &mut String) -> (r: Result<
    (),
    EvalError,
>)
    requires
        old(scopes)@.len() >= 1,
    ensures
        match r {
            Ok(_) => spec_flush_keyword(groups_model(old(scopes)@), old(kword)@) == Ok::<
                _,
                ErrorModel,
            >((groups_model(final(scopes)@), final(kword)@)) && final(scopes)@.len() == old(scopes)@.len(),
            Err(e) => spec_flush_keyword(groups_model(old(scopes)@), old(kword)@) == Err::<
                (Seq<Seq<TokenModel>>, Seq<char>),
                _,
            >(crate::errors::error_model(e)),
        },
{
    if kword.as_str().is_empty() {
        Ok(())
    } else {
        let mut name = String::new();
        core::mem::swap(&mut name, kword);
        push_top_checked(scopes, Token::Keyword(name))
    }
}

/// The scan state built from the executable data.
pub open spec fn st_of(scopes: Seq<Vec<Token>>, num: Seq<char>, kword: Seq<char>) -> ScanState {
    ScanState { scopes: groups_model(scopes), num, kword }
}

/// Processes one scanned character, exactly as `spec_step` says.
#[verifier::rlimit(50)]
fn scan_char(
    scopes: &mut Vec<Vec<Token>>,
    num: &mut String,
    kword: &mut String,
    c: char,
    cs: &str,
) -> (r: Result<(), EvalError>)
    requires
        old(scopes)@.len() >= 1,
        cs@ == seq![c],
    ensures
        match r {
            Ok(_) => spec_step(st_of(old(scopes)@, old(num)@, old(kword)@), c) == Ok::<
                ScanState,
                ErrorModel,
            >(st_of(final(scopes)@, final(num)@, final(kword)@)) && final(scopes)@.len() >= 1,
            Err(e) => spec_step(st_of(old(scopes)@, old(num)@, old(kword)@), c) == Err::<
                ScanState,
                ErrorModel,
            >(crate::errors::error_model(e)),
        },
{
    broadcast use lemma_tokens_model, lemma_groups_model;

    let u = c as u32;
    if c == '.' || (48 <= u && u <= 57) {
        num.append(cs);
        proof {
            assert(old(num)@ + cs@ =~= old(num)@.push(c));
        }
        return Ok(());
    }
    match flush_pending_number(scopes, num) {
        Err(e) => {
            return Err(e);
        },
        Ok(_) => {},
    }
    if (65 <= u && u <= 90) || (97 <= u && u <= 122) {
        kword.append(cs);
        proof {
            assert(old(kword)@ + cs@ =~= old(kword)@.push(c));
        }
        return Ok(());
    }
    match flush_pending_keyword(scopes, kword) {
        Err(e) => {
            return Err(e);
        },
        Ok(_) => {},
    }
    let ghost st2 = st_of(scopes@, num@, kword@);
    let sym: Option<Token> = if c == '+' {
        Some(Token::Operator(Operator::Additive(Additive::Add)))
    } else if c == '-' {
        Some(Token::Operator(Operator::Additive(Additive::Subtract)))
    } else if c == '*' {
        Some(Token::Operator(Operator::Multiplicative(Multiplicative::Multiply)))
    } else if c == '/' {
        Some(Token::Operator(Operator::Multiplicative(Multiplicative::Divide)))
    } else if c == '^' {
        Some(Token::Operator(Operator::Exponential))
    } else if c == ',' || c == ';' {
        Some(Token::Separator)
    } else {
        None
    };
    match sym {
        Some(t) => {
            let ghost tm = token_model(t);
            proof {
                assert(spec_apply_symbol(st2, c) == (match spec_push_top(st2.scopes, tm) {
                    Ok(sc) => Ok::<ScanState, ErrorModel>(ScanState { scopes: sc, ..st2 }),
                    Err(e) => Err::<ScanState, ErrorModel>(e),
                }));
            }
            match push_top_checked(scopes, t) {
                Err(e) => Err(e),
                Ok(_) => Ok(()),
            }
        },
        None => {
            if c == '(' {
                scopes.push(Vec::new());
                proof {
                    assert(tokens_model(Seq::<Token>::empty()) =~= Seq::<TokenModel>::empty());
                    assert(groups_model(scopes@) =~= st2.scopes.push(Seq::empty()));
                }
            } else if c == ')' {
                let ghost pre = groups_model(scopes@);
                if scopes.len() == 1 {
                    let inner = scopes.pop().unwrap();
                    let mut parent: Vec<Token> = Vec::new();
                    parent.push(Token::InnerExpression(inner));
                    scopes.push(parent);
                    proof {
                        assert(tokens_model(Seq::<Token>::empty()) =~= Seq::<
                            TokenModel,
                        >::empty());
                        lemma_tokens_model_push(
                            Seq::<Token>::empty(),
                            Token::InnerExpression(inner),
                        );
                        assert(groups_model(scopes@) =~= seq![
                            seq![TokenModel::Group(pre[0])],
                        ]);
                        assert(groups_model(scopes@) == spec_close_scope(pre));
                    }
                } else {
                    let inner = scopes.pop().unwrap();
                    let mut parent = scopes.pop().unwrap();
                    let ghost parent_view = parent@;
                    parent.push(Token::InnerExpression(inner));
                    scopes.push(parent);
                    proof {
                        lemma_tokens_model_push(parent_view, Token::InnerExpression(inner));
                        assert(groups_model(scopes@) =~= pre.subrange(0, pre.len() - 2).push(
                            pre[pre.len() - 2].push(TokenModel::Group(pre[pre.len() - 1])),
                        ));
                        assert(groups_model(scopes@) == spec_close_scope(pre));
                    }
                }
            } else {
                proof {
                    assert(spec_apply_symbol(st2, c) == Ok::<ScanState, ErrorModel>(st2));
                }
            }
            Ok(())
        },
    }
}

/// Parses the expression string into an array of tokens, representing
/// numbers, operators, keywords, separators and parenthesized
/// sub-expressions.  Behaves exactly as `tokenize_spec` describes.
pub fn parse_tokens(expression: &str) -> (r: Result<Vec<Token>, EvalError>)
    ensures
        tokens_result_model(r) == tokenize_spec(expression@),
{
    broadcast use lemma_tokens_model, lemma_groups_model;

    let ghost s = expression@;
    let n = expression.unicode_len();
    let mut scopes: Vec<Vec<Token>> = Vec::new();
    scopes.push(Vec::new());
    let mut num = String::new();
    let mut kword = String::new();
    proof {
        assert(tokens_model(scopes@[0]@) =~= Seq::<TokenModel>::empty());
        assert(groups_model(scopes@) =~= spec_init_state().scopes);
    }
    let mut i: usize = 0;
    while i < n
        invariant
            s == expression@,
            n as nat == s.len(),
            i <= n,
            scopes@.len() >= 1,
            spec_run(s, i as int) == Ok::<ScanState, ErrorModel>(st_of(scopes@, num@, kword@)),
        decreases n - i,
    {
        let cs = expression.substring_char(i, i + 1);
        let c = cs.get_char(0);
        proof {
            assert(cs@ =~= seq![s[i as int]]);
            assert(c == s[i as int]);
        }
        match scan_char(&mut scopes, &mut num, &mut kword, c, cs) {
            Err(e) => {
                proof {
                    assert(spec_run(s, i as int + 1) == Err::<ScanState, ErrorModel>(
                        crate::errors::error_model(e),
                    ));
                    lemma_run_error_persists(s, i as int + 1, s.len() as int);
                }
                return Err(e);
            },
            Ok(_) => {},
        }
        i = i + 1;
    }
    let ghost st_end = st_of(scopes@, num@, kword@);
    match flush_pending_number(&mut scopes, &mut num) {
        Err(e) => {
            proof {
                assert(spec_finalize(st_end) == Err::<Seq<TokenModel>, ErrorModel>(
                    crate::errors::error_model(e),
                ));
            }
            return Err(e);
        },
        Ok(_) => {},
    }
    match flush_pending_keyword(&mut scopes, &mut kword) {
        Err(e) => {
            proof {
                assert(spec_finalize(st_end) == Err::<Seq<TokenModel>, ErrorModel>(
                    crate::errors::error_model(e),
                ));
            }
            return Err(e);
        },
        Ok(_) => {},
    }
    let ghost collapsed_from = groups_model(scopes@);
    proof {
        assert(tokenize_spec(s) == Ok::<Seq<TokenModel>, ErrorModel>(
            spec_collapse(collapsed_from),
        ));
    }
    while scopes.len() > 1
        invariant
            scopes@.len() >= 1,
            spec_collapse(groups_model(scopes@)) == spec_collapse(collapsed_from),
        decreases scopes@.len(),
    {
        broadcast use lemma_tokens_model, lemma_groups_model;

        let ghost pre = groups_model(scopes@);
        let inner = scopes.pop().unwrap();
        let mut parent = scopes.pop().unwrap();
        let ghost parent_view = parent@;
        parent.push(Token::InnerExpression(inner));
        scopes.push(parent);
        proof {
            lemma_tokens_model_push(parent_view, Token::InnerExpression(inner));
            assert(groups_model(scopes@) =~= pre.subrange(0, pre.len() - 2).push(
                pre[pre.len() - 2].push(TokenModel::Group(pre[pre.len() - 1])),
            ));
        }
    }
    let ghost g_final = groups_model(scopes@);
    let result = scopes.pop().unwrap();
    proof {
        assert(tokens_model(result@) == g_final[0]);
        assert(spec_collapse(g_final) == tokens_model(result@));
    }
    Ok(result)
}

/// Appending one group appends its model.
proof fn lemma_groups_model_push(s: Seq<Vec<Token>>, v: Vec<Token>)
    ensures
        groups_model(s.push(v)) == groups_model(s).push(tokens_model(v@)),
{
    broadcast use lemma_groups_model;

    assert(groups_model(s.push(v)) =~= groups_model(s).push(tokens_model(v@)));
}

/// Copies one token, preserving its model.
pub(crate) fn dup_token(t: &Token) -> (r: Token)
    ensures
        token_model(r) == token_model(*t),
    decreases *t,
{
    match t {
        Token::Number(s) => Token::Number(s.clone()),
        Token::Constant(c) => Token::Constant(*c),
        Token::Operator(op) => Token::Operator(*op),
        Token::Separator => Token::Separator,
        Token::Keyword(s) => Token::Keyword(s.clone()),
        Token::InnerExpression(v) => {
            proof {
                assert(decreases_to!(*t => *v));
                assert(decreases_to!(*v => v@));
            }
            Token::InnerExpression(dup_tokens(v))
        },
        Token::Function(f, args) => {
            proof {
                assert(decreases_to!(*t => *args));
                assert(decreases_to!(*args => args@));
            }
            Token::Function(*f, dup_groups(args))
        },
    }
}

/// Copies a token sequence, preserving its model.
fn dup_tokens(v: &Vec<Token>) -> (r: Vec<Token>)
    ensures
        tokens_model(r@) == tokens_model(v@),
    decreases v@,
{
    broadcast use lemma_tokens_model;

    let mut r: Vec<Token> = Vec::new();
    let mut i: usize = 0;
    proof {
        assert(tokens_model(r@) =~= tokens_model(v@.subrange(0, 0)));
    }
    while i < v.len()
        invariant
            i <= v@.len(),
            tokens_model(r@) == tokens_model(v@.subrange(0, i as int)),
        decreases v@.len() - i,
    {
        broadcast use lemma_tokens_model;

        let ghost r_pre = r@;
        let t = dup_token(&v[i]);
        r.push(t);
        proof {
            lemma_tokens_model_push(r_pre, t);
            assert(v@.subrange(0, i as int + 1) =~= v@.subrange(0, i as int).push(v@[i as int]));
            lemma_tokens_model_push(v@.subrange(0, i as int), v@[i as int]);
            assert(tokens_model(r@) =~= tokens_model(v@.subrange(0, i as int + 1)));
        }
        i = i + 1;
    }
    proof {
        assert(v@.subrange(0, v@.len() as int) =~= v@);
    }
    r
}

/// Copies a sequence of argument groups, preserving its model.
fn dup_groups(vv: &Vec<Vec<Token>>) -> (r: Vec<Vec<Token>>)
    ensures
        groups_model(r@) == groups_model(vv@),
    decreases vv@,
{
    broadcast use lemma_groups_model;

    let mut r: Vec<Vec<Token>> = Vec::new();
    let mut i: usize = 0;
    proof {
        assert(groups_model(r@) =~= groups_model(vv@.subrange(0, 0)));
    }
    while i < vv.len()
        invariant
            i <= vv@.len(),
            groups_model(r@) == groups_model(vv@.subrange(0, i as int)),
        decreases vv@.len() - i,
    {
        broadcast use lemma_groups_model;

        let ghost r_pre = r@;
        proof {
            assert(decreases_to!(vv@ => vv@[i as int]));
            assert(decreases_to!(vv@[i as int] => vv@[i as int]@));
        }
        let g = dup_tokens(&vv[i]);
        r.push(g);
        proof {
            lemma_groups_model_push(r_pre, g);
            assert(vv@.subrange(0, i as int + 1) =~= vv@.subrange(0, i as int).push(
                vv@[i as int],
            ));
            lemma_groups_model_push(vv@.subrange(0, i as int), vv@[i as int]);
            assert(groups_model(r@) =~= groups_model(vv@.subrange(0, i as int + 1)));
        }
        i = i + 1;
    }
    proof {
        assert(vv@.subrange(0, vv@.len() as int) =~= vv@);
    }
    r
}

/// The position of the first top-level separator of a group's contents.
pub open spec fn spec_first_separator(g: Seq<TokenModel>) -> Option<int>
    decreases g.len(),
{
    if g.len() == 0 {
        None
    } else if g[0] is Separator {
        Some(0)
    } else {
        match spec_first_separator(g.subrange(1, g.len() as int)) {
            Some(i) => Some(i + 1),
            None => None,
        }
    }
}

/// What `spec_first_separator` finds: the first separator, if any.
proof fn lemma_first_separator(g: Seq<TokenModel>)
    ensures
        match spec_first_separator(g) {
            Some(i) => 0 <= i < g.len() && g[i] is Separator && forall|j: int|
                0 <= j < i ==> !(#[trigger] g[j] is Separator),
            None => forall|j: int| 0 <= j < g.len() ==> !(#[trigger] g[j] is Separator),
        },
    decreases g.len(),
{
    if g.len() > 0 && !(g[0] is Separator) {
        let sub = g.subrange(1, g.len() as int);
        lemma_first_separator(sub);
        match spec_first_separator(sub) {
            Some(i) => {
                assert forall|j: int| 0 <= j < i + 1 implies !(#[trigger] g[j] is Separator) by {
                    if j > 0 {
                        assert(g[j] == sub[j - 1]);
                    }
                }
            },
            None => {
                assert forall|j: int| 0 <= j < g.len() implies !(
                #[trigger] g[j] is Separator) by {
                    if j > 0 {
                        assert(g[j] == sub[j - 1]);
                    }
                }
            },
        }
    }
}

/// The first separator is at `i` when `g[i]` is one and none precedes.
proof fn lemma_first_separator_is(g: Seq<TokenModel>, i: int)
    requires
        0 <= i < g.len(),
        g[i] is Separator,
        forall|j: int| 0 <= j < i ==> !(#[trigger] g[j] is Separator),
    ensures
        spec_first_separator(g) == Some(i),
{
    lemma_first_separator(g);
}

/// Splits non-empty group contents on top-level separators.
pub open spec fn spec_split_rest(g: Seq<TokenModel>) -> Seq<Seq<TokenModel>>
    decreases g.len(),
    via spec_split_rest_decreases
{
    match spec_first_separator(g) {
        None => seq![g],
        Some(i) => seq![g.subrange(0, i)] + spec_split_rest(g.subrange(i + 1, g.len() as int)),
    }
}

#[via_fn]
proof fn spec_split_rest_decreases(g: Seq<TokenModel>) {
    lemma_first_separator(g);
}

/// Splits a group's contents into one token sequence per positional
/// argument.  Empty contents mean no arguments at all; otherwise each
/// top-level separator delimits one (possibly empty) argument.
pub open spec fn spec_split_args(g: Seq<TokenModel>) -> Seq<Seq<TokenModel>> {
    if g.len() == 0 {
        Seq::empty()
    } else {
        spec_split_rest(g)
    }
}

/// Resolves every keyword of an already group-resolved sequence, left
/// to right: a function keyword consumes the group that follows it as
/// its argument list, a constant keyword is substituted in place, and
/// any other spelling is an error.
pub open spec fn resolve_keywords(s: Seq<TokenModel>) -> Result<Seq<TokenModel>, ErrorModel>
    decreases s.len(),
{
    if s.len() == 0 {
        Ok(Seq::empty())
    } else {
        match s[0] {
            TokenModel::Keyword(name) => match (
                spec_lookup_function(name),
                spec_lookup_constant(name),
            ) {
                (Some(f), None) => {
                    if s.len() >= 2 && s[1] is Group {
                        match s[1] {
                            TokenModel::Group(g) => match resolve_keywords(
                                s.subrange(2, s.len() as int),
                            ) {
                                Err(e) => Err(e),
                                Ok(rest) => Ok(
                                    seq![TokenModel::Function(f, spec_split_args(g))] + rest,
                                ),
                            },
                            _ => Err(ErrorModel::NoFunctionArguments(name)),
                        }
                    } else {
                        Err(ErrorModel::NoFunctionArguments(name))
                    }
                },
                (None, Some(k)) => match resolve_keywords(s.subrange(1, s.len() as int)) {
                    Err(e) => Err(e),
                    Ok(rest) => Ok(seq![TokenModel::Constant(k)] + rest),
                },
                (Some(_), Some(_)) => Err(ErrorModel::ProgramIsStupid),
                (None, None) => Err(ErrorModel::UnknownKeyword(name)),
            },
            _ => match resolve_keywords(s.subrange(1, s.len() as int)) {
                Err(e) => Err(e),
                Ok(rest) => Ok(seq![s[0]] + rest),
            },
        }
    }
}

/// Resolves the contents of every group, depth first and left to right,
/// leaving all other tokens in place.
pub open spec fn resolve_groups(s: Seq<TokenModel>) -> Result<Seq<TokenModel>, ErrorModel>
    decreases s, 0int,
    via resolve_groups_decreases
{
    if s.len() == 0 {
        Ok(Seq::empty())
    } else {
        let head = match s[0] {
            TokenModel::Group(g) => match resolve_spec(g) {
                Ok(r) => Ok(TokenModel::Group(r)),
                Err(e) => Err(e),
            },
            _ => Ok(s[0]),
        };
        match head {
            Err(e) => Err(e),
            Ok(h) => match resolve_groups(s.subrange(1, s.len() as int)) {
                Err(e) => Err(e),
                Ok(rest) => Ok(seq![h] + rest),
            },
        }
    }
}

#[via_fn]
proof fn resolve_groups_decreases(s: Seq<TokenModel>) {
    if s.len() > 0 {
        match s[0] {
            TokenModel::Group(g) => {
                assert(decreases_to!(s => s[0]));
                assert(decreases_to!(s[0] => g));
            },
            _ => {},
        }
    }
}

/// What resolving a token sequence yields: the full functional
/// specification of `parse_keywords`.  Groups are resolved first, depth
/// first; then the top-level keywords, left to right.
pub open spec fn resolve_spec(s: Seq<TokenModel>) -> Result<Seq<TokenModel>, ErrorModel>
    decreases s, 1int,
{
    match resolve_groups(s) {
        Err(e) => Err(e),
        Ok(s1) => resolve_keywords(s1),
    }
}

/// Splits a group's contents on its top-level separators, exactly as
/// `spec_split_args` says.
fn split_group_args(group: &Vec<Token>) -> (r: Vec<Vec<Token>>)
    ensures
        groups_model(r@) == spec_split_args(tokens_model(group@)),
{
    broadcast use lemma_tokens_model, lemma_groups_model;

    let ghost gm = tokens_model(group@);
    let mut args: Vec<Vec<Token>> = Vec::new();
    if group.len() == 0 {
        proof {
            assert(groups_model(args@) =~= spec_split_args(gm));
        }
        return args;
    }
    let mut cur: Vec<Token> = Vec::new();
    let mut j: usize = 0;
    proof {
        assert(tokens_model(cur@) =~= Seq::<TokenModel>::empty());
        assert(groups_model(args@) =~= Seq::<Seq<TokenModel>>::empty());
        assert(tokens_model(cur@) + gm.subrange(0, gm.len() as int) =~= gm);
    }
    while j < group.len()
        invariant
            j <= group@.len(),
            gm == tokens_model(group@),
            gm.len() == group@.len(),
            spec_split_rest(gm) == groups_model(args@) + spec_split_rest(
                tokens_model(cur@) + gm.subrange(j as int, gm.len() as int),
            ),
            forall|k: int|
                0 <= k < tokens_model(cur@).len() ==> !(#[trigger] tokens_model(
                    cur@,
                )[k] is Separator),
        decreases group@.len() - j,
    {
        broadcast use lemma_tokens_model, lemma_groups_model;

        let ghost pre_cur = tokens_model(cur@);
        let ghost d = pre_cur + gm.subrange(j as int, gm.len() as int);
        match &group[j] {
            Token::Separator => {
                let done = cur;
                cur = Vec::new();
                let ghost args_pre = args@;
                args.push(done);
                proof {
                    lemma_first_separator_is(d, pre_cur.len() as int);
                    lemma_groups_model_push(args_pre, done);
                    assert(d.subrange(0, pre_cur.len() as int) =~= pre_cur);
                    assert(d.subrange(pre_cur.len() as int + 1, d.len() as int) =~= gm.subrange(
                        j as int + 1,
                        gm.len() as int,
                    ));
                    assert(tokens_model(cur@) =~= Seq::<TokenModel>::empty());
                    assert(tokens_model(cur@) + gm.subrange(j as int + 1, gm.len() as int)
                        =~= gm.subrange(j as int + 1, gm.len() as int));
                    assert(groups_model(args@) + spec_split_rest(
                        gm.subrange(j as int + 1, gm.len() as int),
                    ) =~= groups_model(args_pre) + (seq![pre_cur] + spec_split_rest(
                        gm.subrange(j as int + 1, gm.len() as int),
                    )));
                }
            },
            t => {
                let ghost cur_pre = cur@;
                let copy = dup_token(t);
                cur.push(copy);
                proof {
                    lemma_tokens_model_push(cur_pre, copy);
                    assert(tokens_model(cur@) + gm.subrange(j as int + 1, gm.len() as int)
                        =~= d);
                }
            },
        }
        j = j + 1;
    }
    let ghost pre_cur = tokens_model(cur@);
    let ghost args_pre = args@;
    args.push(cur);
    proof {
        assert(pre_cur + gm.subrange(gm.len() as int, gm.len() as int) =~= pre_cur);
        lemma_first_separator(pre_cur);
        lemma_groups_model_push(args_pre, cur);
        assert(groups_model(args@) =~= groups_model(args_pre) + seq![pre_cur]);
        assert(groups_model(args@) == spec_split_rest(gm));
    }
    args
}

/// Resolves every keyword of a token sequence against the two
/// registries, exactly as `resolve_spec` says: group contents first,
/// depth first, then the top-level keywords, left to right.
fn parse_keywords(expression: &[Token]) -> (r: Result<Vec<Token>, EvalError>)
    ensures
        tokens_result_model(r) == resolve_spec(tokens_model(expression@)),
    decreases expression@,
{
    broadcast use lemma_tokens_model, lemma_groups_model;

    let ghost g = tokens_model(expression@);
    let mut resolved: Vec<Token> = Vec::new();
    let mut i: usize = 0;
    proof {
        assert(g.subrange(0, g.len() as int) =~= g);
        assert(tokens_model(resolved@) =~= Seq::<TokenModel>::empty());
        match resolve_groups(g) {
            Ok(rest) => {
                assert(tokens_model(resolved@) + rest =~= rest);
            },
            Err(_) => {},
        }
    }
    while i < expression.len()
        invariant
            i <= expression@.len(),
            g == tokens_model(expression@),
            g.len() == expression@.len(),
            resolve_groups(g) == (match resolve_groups(g.subrange(i as int, g.len() as int)) {
                Ok(rest) => Ok::<Seq<TokenModel>, ErrorModel>(tokens_model(resolved@) + rest),
                Err(e) => Err::<Seq<TokenModel>, ErrorModel>(e),
            }),
        decreases expression@.len() - i,
    {
        broadcast use lemma_tokens_model, lemma_groups_model;

        let ghost sub = g.subrange(i as int, g.len() as int);
        let ghost sub2 = g.subrange(i as int + 1, g.len() as int);
        proof {
            assert(sub[0] == g[i as int]);
            assert(sub.subrange(1, sub.len() as int) =~= sub2);
        }
        let ghost resolved_pre = resolved@;
        match &expression[i] {
            Token::InnerExpression(inner) => {
                proof {
                    assert(decreases_to!(expression@ => expression@[i as int]));
                    assert(decreases_to!(expression@[i as int] => *inner));
                    assert(decreases_to!(*inner => inner@));
                }
                match parse_keywords(inner.as_slice()) {
                    Err(e) => {
                        proof {
                            assert(resolve_groups(g) == Err::<Seq<TokenModel>, ErrorModel>(
                                crate::errors::error_model(e),
                            ));
                        }
                        return Err(e);
                    },
                    Ok(rv) => {
                        let t = Token::InnerExpression(rv);
                        proof {
                            lemma_tokens_model_push(resolved_pre, t);
                            match resolve_groups(sub2) {
                                Ok(rest2) => {
                                    assert(tokens_model(resolved_pre) + (seq![token_model(t)]
                                        + rest2) =~= tokens_model(resolved_pre).push(
                                        token_model(t),
                                    ) + rest2);
                                },
                                Err(_) => {},
                            }
                        }
                        resolved.push(t);
                    },
                }
            },
            t => {
                let copy = dup_token(t);
                proof {
                    lemma_tokens_model_push(resolved_pre, copy);
                    match resolve_groups(sub2) {
                        Ok(rest2) => {
                            assert(tokens_model(resolved_pre) + (seq![token_model(copy)] + rest2)
                                =~= tokens_model(resolved_pre).push(token_model(copy)) + rest2);
                        },
                        Err(_) => {},
                    }
                }
                resolved.push(copy);
            },
        }
        i = i + 1;
    }
    proof {
        assert(g.subrange(g.len() as int, g.len() as int) =~= Seq::<TokenModel>::empty());
        assert(tokens_model(resolved@) + Seq::<TokenModel>::empty() =~= tokens_model(resolved@));
        assert(resolve_groups(g) == Ok::<Seq<TokenModel>, ErrorModel>(tokens_model(resolved@)));
    }
    let ghost r1 = tokens_model(resolved@);
    let mut out: Vec<Token> = Vec::new();
    let mut j: usize = 0;
    proof {
        assert(r1.subrange(0, r1.len() as int) =~= r1);
        assert(tokens_model(out@) =~= Seq::<TokenModel>::empty());
        match resolve_keywords(r1) {
            Ok(rest) => {
                assert(tokens_model(out@) + rest =~= rest);
            },
            Err(_) => {},
        }
    }
    while j < resolved.len()
        invariant
            j <= resolved@.len(),
            g == tokens_model(expression@),
            resolve_groups(g) == Ok::<Seq<TokenModel>, ErrorModel>(r1),
            r1 == tokens_model(resolved@),
            r1.len() == resolved@.len(),
            resolve_keywords(r1) == (match resolve_keywords(
                r1.subrange(j as int, r1.len() as int),
            ) {
                Ok(rest) => Ok::<Seq<TokenModel>, ErrorModel>(tokens_model(out@) + rest),
                Err(e) => Err::<Seq<TokenModel>, ErrorModel>(e),
            }),
        decreases resolved@.len() - j,
    {
        broadcast use lemma_tokens_model, lemma_groups_model;

        let ghost sub = r1.subrange(j as int, r1.len() as int);
        proof {
            assert(sub[0] == r1[j as int]);
        }
        let ghost out_pre = out@;
        match &resolved[j] {
            Token::Keyword(name) => {
                let f = lookup_function(name);
                let k = lookup_constant(name);
                match (f, k) {
                    (Some(func), None) => {
                        if j + 1 < resolved.len() {
                            proof {
                                assert(sub[1] == r1[j as int + 1]);
                            }
                            match &resolved[j + 1] {
                                Token::InnerExpression(grp) => {
                                    let args = split_group_args(grp);
                                    let t = Token::Function(func, args);
                                    proof {
                                        lemma_tokens_model_push(out_pre, t);
                                        assert(sub.subrange(2, sub.len() as int) =~= r1.subrange(
                                            j as int + 2,
                                            r1.len() as int,
                                        ));
                                        match resolve_keywords(
                                            r1.subrange(j as int + 2, r1.len() as int),
                                        ) {
                                            Ok(rest2) => {
                                                assert(tokens_model(out_pre) + (seq![
                                                    token_model(t),
                                                ] + rest2) =~= tokens_model(out_pre).push(
                                                    token_model(t),
                                                ) + rest2);
                                            },
                                            Err(_) => {},
                                        }
                                    }
                                    out.push(t);
                                    j = j + 2;
                                },
                                _ => {
                                    proof {
                                        assert(resolve_keywords(sub)
                                            == Err::<Seq<TokenModel>, ErrorModel>(
                                            ErrorModel::NoFunctionArguments(name@),
                                        ));
                                    }
                                    return Err(EvalError::NoFunctionArguments(name.clone()));
                                },
                            }
                        } else {
                            proof {
                                assert(sub.len() < 2);
                                assert(resolve_keywords(sub) == Err::<
                                    Seq<TokenModel>,
                                    ErrorModel,
                                >(ErrorModel::NoFunctionArguments(name@)));
                            }
                            return Err(EvalError::NoFunctionArguments(name.clone()));
                        }
                    },
                    (None, Some(c)) => {
                        let t = Token::Constant(c);
                        proof {
                            lemma_tokens_model_push(out_pre, t);
                            assert(sub.subrange(1, sub.len() as int) =~= r1.subrange(
                                j as int + 1,
                                r1.len() as int,
                            ));
                            match resolve_keywords(r1.subrange(j as int + 1, r1.len() as int)) {
                                Ok(rest2) => {
                                    assert(tokens_model(out_pre) + (seq![token_model(t)] + rest2)
                                        =~= tokens_model(out_pre).push(token_model(t)) + rest2);
                                },
                                Err(_) => {},
                            }
                        }
                        out.push(t);
                        j = j + 1;
                    },
                    (Some(_), Some(_)) => {
                        return Err(EvalError::ProgramIsStupid);
                    },
                    (None, None) => {
                        return Err(EvalError::UnknownKeyword(name.clone()));
                    },
                }
            },
            t => {
                let copy = dup_token(t);
                proof {
                    lemma_tokens_model_push(out_pre, copy);
                    assert(sub.subrange(1, sub.len() as int) =~= r1.subrange(
                        j as int + 1,
                        r1.len() as int,
                    ));
                    match resolve_keywords(r1.subrange(j as int + 1, r1.len() as int)) {
                        Ok(rest2) => {
                            assert(tokens_model(out_pre) + (seq![token_model(copy)] + rest2)
                                =~= tokens_model(out_pre).push(token_model(copy)) + rest2);
                        },
                        Err(_) => {},
                    }
                }
                out.push(copy);
                j = j + 1;
            },
        }
    }
    proof {
        assert(r1.subrange(r1.len() as int, r1.len() as int) =~= Seq::<TokenModel>::empty());
        assert(tokens_model(out@) + Seq::<TokenModel>::empty() =~= tokens_model(out@));
        assert(resolve_keywords(r1) == Ok::<Seq<TokenModel>, ErrorModel>(tokens_model(out@)));
    }
    Ok(out)
}

/// Tokenizes the expression string and resolves its keywords: the whole
/// front half of the pipeline, as `parse_expression_spec` says.
pub fn parse_expression(expression: &str) -> (r: Result<Vec<Token>, EvalError>)
    ensures
        tokens_result_model(r) == parse_expression_spec(expression@),
{
    let tokens_pass_1 = match parse_tokens(expression) {
        Ok(t) => t,
        Err(e) => {
            return Err(e);
        },
    };
    parse_keywords(tokens_pass_1.as_slice())
}

/// What the whole front half yields for a text: tokenizing, then
/// resolving.
pub open spec fn parse_expression_spec(s: Seq<char>) -> Result<Seq<TokenModel>, ErrorModel> {
    match tokenize_spec(s) {
        Err(e) => Err(e),
        Ok(toks) => resolve_spec(toks),
    }
}

/// A token as the tokenizer alone can produce it: never a resolved
/// constant or function call, and groups contain only such tokens.
pub open spec fn raw_token(t: TokenModel) -> bool
    decreases t,
{
    match t {
        TokenModel::Constant(_) => false,
        TokenModel::Function(_, _) => false,
        TokenModel::Group(g) => raw_tokens(g),
        _ => true,
    }
}

/// A sequence of tokens as the tokenizer alone can produce them.
pub open spec fn raw_tokens(s: Seq<TokenModel>) -> bool
    decreases s,
{
    if s.len() == 0 {
        true
    } else {
        raw_token(s[0]) && raw_tokens(s.subrange(1, s.len() as int))
    }
}

/// A token with no unresolved keyword anywhere inside it.
pub open spec fn resolved_token(t: TokenModel) -> bool
    decreases t,
{
    match t {
        TokenModel::Keyword(_) => false,
        TokenModel::Group(g) => resolved_tokens(g),
        TokenModel::Function(_, args) => resolved_args(args),
        _ => true,
    }
}

/// A sequence of tokens with no unresolved keyword anywhere inside.
pub open spec fn resolved_tokens(s: Seq<TokenModel>) -> bool
    decreases s,
{
    if s.len() == 0 {
        true
    } else {
        resolved_token(s[0]) && resolved_tokens(s.subrange(1, s.len() as int))
    }
}

/// Argument groups with no unresolved keyword anywhere inside.
pub open spec fn resolved_args(gs: Seq<Seq<TokenModel>>) -> bool
    decreases gs,
{
    if gs.len() == 0 {
        true
    } else {
        resolved_tokens(gs[0]) && resolved_args(gs.subrange(1, gs.len() as int))
    }
}

/// A token whose group contents, if any, are fully resolved, though the
/// token itself may still be a keyword: the shape between the two
/// resolver passes.
pub open spec fn inner_resolved_token(t: TokenModel) -> bool {
    match t {
        TokenModel::Constant(_) => false,
        TokenModel::Function(_, _) => false,
        TokenModel::Group(g) => resolved_tokens(g),
        _ => true,
    }
}

/// A sequence of tokens whose group contents are fully resolved.
pub open spec fn inner_resolved_tokens(s: Seq<TokenModel>) -> bool
    decreases s,
{
    if s.len() == 0 {
        true
    } else {
        inner_resolved_token(s[0]) && inner_resolved_tokens(s.subrange(1, s.len() as int))
    }
}

/// A raw-token sequence is raw elementwise.
pub broadcast proof fn lemma_raw_tokens(s: Seq<TokenModel>)
    ensures
        #[trigger] raw_tokens(s) <==> (forall|i: int|
            0 <= i < s.len() ==> raw_token(#[trigger] s[i])),
    decreases s.len(),
{
    if s.len() > 0 {
        let sub = s.subrange(1, s.len() as int);
        lemma_raw_tokens(sub);
        assert forall|i: int| 1 <= i < s.len() implies s[i] == sub[i - 1] by {}
        if raw_token(s[0]) && (forall|i: int| 0 <= i < sub.len() ==> raw_token(#[trigger] sub[i])) {
            assert forall|i: int| 0 <= i < s.len() implies raw_token(#[trigger] s[i]) by {
                if i > 0 {
                    assert(s[i] == sub[i - 1]);
                }
            }
        }
        if forall|i: int| 0 <= i < s.len() ==> raw_token(#[trigger] s[i]) {
            assert forall|i: int| 0 <= i < sub.len() implies raw_token(#[trigger] sub[i]) by {
                assert(sub[i] == s[i + 1]);
            }
        }
    }
}

/// A resolved-token sequence is resolved elementwise.
pub broadcast proof fn lemma_resolved_tokens(s: Seq<TokenModel>)
    ensures
        #[trigger] resolved_tokens(s) <==> (forall|i: int|
            0 <= i < s.len() ==> resolved_token(#[trigger] s[i])),
    decreases s.len(),
{
    if s.len() > 0 {
        let sub = s.subrange(1, s.len() as int);
        lemma_resolved_tokens(sub);
        if resolved_token(s[0]) && (forall|i: int|
            0 <= i < sub.len() ==> resolved_token(#[trigger] sub[i])) {
            assert forall|i: int| 0 <= i < s.len() implies resolved_token(#[trigger] s[i]) by {
                if i > 0 {
                    assert(s[i] == sub[i - 1]);
                }
            }
        }
        if forall|i: int| 0 <= i < s.len() ==> resolved_token(#[trigger] s[i]) {
            assert forall|i: int| 0 <= i < sub.len() implies resolved_token(
                #[trigger] sub[i],
            ) by {
                assert(sub[i] == s[i + 1]);
            }
        }
    }
}

/// An inner-resolved sequence is inner-resolved elementwise.
pub broadcast proof fn lemma_inner_resolved_tokens(s: Seq<TokenModel>)
    ensures
        #[trigger] inner_resolved_tokens(s) <==> (forall|i: int|
            0 <= i < s.len() ==> inner_resolved_token(#[trigger] s[i])),
    decreases s.len(),
{
    if s.len() > 0 {
        let sub = s.subrange(1, s.len() as int);
        lemma_inner_resolved_tokens(sub);
        if inner_resolved_token(s[0]) && (forall|i: int|
            0 <= i < sub.len() ==> inner_resolved_token(#[trigger] sub[i])) {
            assert forall|i: int| 0 <= i < s.len() implies inner_resolved_token(
                #[trigger] s[i],
            ) by {
                if i > 0 {
                    assert(s[i] == sub[i - 1]);
                }
            }
        }
        if forall|i: int| 0 <= i < s.len() ==> inner_resolved_token(#[trigger] s[i]) {
            assert forall|i: int| 0 <= i < sub.len() implies inner_resolved_token(
                #[trigger] sub[i],
            ) by {
                assert(sub[i] == s[i + 1]);
            }
        }
    }
}

/// Every scope of the scanner holds only raw tokens.
pub open spec fn scopes_raw(sc: Seq<Seq<TokenModel>>) -> bool {
    forall|i: int| 0 <= i < sc.len() ==> raw_tokens(#[trigger] sc[i])
}

/// Pushing a raw token into the innermost scope keeps every scope raw.
proof fn lemma_push_top_raw(scopes: Seq<Seq<TokenModel>>, t: TokenModel)
    requires
        scopes_raw(scopes),
        raw_token(t),
        scopes.len() >= 1,
    ensures
        spec_push_top(scopes, t) matches Ok(sc2) ==> scopes_raw(sc2) && sc2.len()
            == scopes.len(),
{
    broadcast use lemma_raw_tokens;

    let k = scopes.len() - 1;
    match spec_push_checked(scopes[k], t) {
        Ok(sc) => {
            assert(sc == scopes[k].push(t));
            assert(raw_tokens(sc));
            assert forall|i: int| 0 <= i < scopes.update(k, sc).len() implies raw_tokens(
                #[trigger] scopes.update(k, sc)[i],
            ) by {
                if i != k {
                    assert(scopes.update(k, sc)[i] == scopes[i]);
                }
            }
        },
        Err(_) => {},
    }
}

/// One scan step keeps every scope raw.
proof fn lemma_step_raw(st: ScanState, c: char)
    requires
        scopes_raw(st.scopes),
        st.scopes.len() >= 1,
    ensures
        spec_step(st, c) matches Ok(st2) ==> scopes_raw(st2.scopes) && st2.scopes.len() >= 1,
{
    broadcast use lemma_raw_tokens;

    if !spec_is_number_char(c) {
        if st.num.len() > 0 {
            lemma_push_top_raw(st.scopes, TokenModel::Number(st.num));
        }
        match spec_flush_number(st.scopes, st.num) {
            Ok(p) => {
                let sc1 = p.0;
                if !spec_is_letter(c) {
                    if st.kword.len() > 0 {
                        lemma_push_top_raw(sc1, TokenModel::Keyword(st.kword));
                    }
                    match spec_flush_keyword(sc1, st.kword) {
                        Ok(q) => {
                            let sc2 = q.0;
                            if c == '+' {
                                lemma_push_top_raw(
                                    sc2,
                                    TokenModel::Operator(Operator::Additive(Additive::Add)),
                                );
                            } else if c == '-' {
                                lemma_push_top_raw(
                                    sc2,
                                    TokenModel::Operator(
                                        Operator::Additive(Additive::Subtract),
                                    ),
                                );
                            } else if c == '*' {
                                lemma_push_top_raw(
                                    sc2,
                                    TokenModel::Operator(
                                        Operator::Multiplicative(Multiplicative::Multiply),
                                    ),
                                );
                            } else if c == '/' {
                                lemma_push_top_raw(
                                    sc2,
                                    TokenModel::Operator(
                                        Operator::Multiplicative(Multiplicative::Divide),
                                    ),
                                );
                            } else if c == '^' {
                                lemma_push_top_raw(sc2, TokenModel::Operator(
                                    Operator::Exponential,
                                ));
                            } else if c == ',' || c == ';' {
                                lemma_push_top_raw(sc2, TokenModel::Separator);
                            } else if c == '(' {
                                assert(raw_tokens(Seq::<TokenModel>::empty()));
                                assert forall|i: int|
                                    0 <= i < sc2.push(Seq::empty()).len() implies raw_tokens(
                                    #[trigger] sc2.push(Seq::empty())[i],
                                ) by {
                                    if i < sc2.len() {
                                        assert(sc2.push(Seq::empty())[i] == sc2[i]);
                                    }
                                }
                            } else if c == ')' {
                                lemma_close_scope_raw(sc2);
                            }
                        },
                        Err(_) => {},
                    }
                }
            },
            Err(_) => {},
        }
    }
}

/// Closing the innermost scope keeps every scope raw.
proof fn lemma_close_scope_raw(sc: Seq<Seq<TokenModel>>)
    requires
        scopes_raw(sc),
        sc.len() >= 1,
    ensures
        scopes_raw(spec_close_scope(sc)),
        spec_close_scope(sc).len() >= 1,
{
    broadcast use lemma_raw_tokens;

    if sc.len() <= 1 {
        let inner = sc[0];
        let r = seq![seq![TokenModel::Group(inner)]];
        assert(raw_token(TokenModel::Group(inner)));
        assert(raw_tokens(r[0]));
        assert forall|i: int| 0 <= i < r.len() implies raw_tokens(#[trigger] r[i]) by {
            assert(r[i] == r[0]);
        }
    } else {
        let n = sc.len() as int;
        let parent = sc[n - 2].push(TokenModel::Group(sc[n - 1]));
        assert(raw_token(TokenModel::Group(sc[n - 1])));
        assert(raw_tokens(parent));
        let r = sc.subrange(0, n - 2).push(parent);
        assert forall|i: int| 0 <= i < r.len() implies raw_tokens(#[trigger] r[i]) by {
            if i < n - 2 {
                assert(r[i] == sc[i]);
            } else {
                assert(r[i] == parent);
            }
        }
    }
}

/// Every state the scanner reaches has raw scopes only.
proof fn lemma_run_raw(s: Seq<char>, n: int)
    ensures
        spec_run(s, n) matches Ok(st) ==> scopes_raw(st.scopes) && st.scopes.len() >= 1,
    decreases n,
{
    broadcast use lemma_raw_tokens;

    if n <= 0 {
        assert(raw_tokens(Seq::<TokenModel>::empty()));
        assert forall|i: int| 0 <= i < spec_init_state().scopes.len() implies raw_tokens(
            #[trigger] spec_init_state().scopes[i],
        ) by {
            assert(spec_init_state().scopes[i] == Seq::<TokenModel>::empty());
        }
    } else {
        lemma_run_raw(s, n - 1);
        match spec_run(s, n - 1) {
            Ok(st) => lemma_step_raw(st, s[n - 1]),
            Err(_) => {},
        }
    }
}

/// Collapsing the open scopes of a raw stack yields raw tokens.
proof fn lemma_collapse_raw(sc: Seq<Seq<TokenModel>>)
    requires
        scopes_raw(sc),
        sc.len() >= 1,
    ensures
        raw_tokens(spec_collapse(sc)),
    decreases sc.len(),
{
    broadcast use lemma_raw_tokens;

    if sc.len() > 1 {
        let n = sc.len() as int;
        let parent = sc[n - 2].push(TokenModel::Group(sc[n - 1]));
        assert(raw_token(TokenModel::Group(sc[n - 1])));
        assert(raw_tokens(parent));
        let merged = sc.subrange(0, n - 2).push(parent);
        assert forall|i: int| 0 <= i < merged.len() implies raw_tokens(
            #[trigger] merged[i],
        ) by {
            if i < n - 2 {
                assert(merged[i] == sc[i]);
            } else {
                assert(merged[i] == parent);
            }
        }
        lemma_collapse_raw(merged);
    }
}

/// Law: the tokenizer only ever produces numbers, operators,
/// separators, keywords and groups of the same — never a resolved
/// constant or function call.
pub proof fn lemma_tokenize_raw(text: Seq<char>)
    ensures
        tokenize_spec(text) matches Ok(toks) ==> raw_tokens(toks),
{
    lemma_run_raw(text, text.len() as int);
    match spec_run(text, text.len() as int) {
        Ok(st) => {
            if st.num.len() > 0 {
                lemma_push_top_raw(st.scopes, TokenModel::Number(st.num));
            }
            match spec_flush_number(st.scopes, st.num) {
                Ok(p) => {
                    if st.kword.len() > 0 {
                        lemma_push_top_raw(p.0, TokenModel::Keyword(st.kword));
                    }
                    match spec_flush_keyword(p.0, st.kword) {
                        Ok(q) => {
                            lemma_collapse_raw(q.0);
                        },
                        Err(_) => {},
                    }
                },
                Err(_) => {},
            }
        },
        Err(_) => {},
    }
}

/// Law: after the keyword resolver has run, no `Keyword` token remains
/// anywhere in the recursively nested token sequence.
pub proof fn lemma_no_keyword_after_resolution(text: Seq<char>)
    ensures
        parse_expression_spec(text) matches Ok(toks) ==> resolved_tokens(toks),
{
    lemma_tokenize_raw(text);
    match tokenize_spec(text) {
        Ok(t) => lemma_resolve_resolved(t),
        Err(_) => {},
    }
}

/// Splitting fully resolved group contents yields fully resolved
/// argument groups.
proof fn lemma_split_rest_resolved(g: Seq<TokenModel>)
    requires
        resolved_tokens(g),
    ensures
        resolved_args(spec_split_rest(g)),
    decreases g.len(),
{
    broadcast use lemma_resolved_tokens;

    lemma_first_separator(g);
    match spec_first_separator(g) {
        None => {
            let r = seq![g];
            assert(spec_split_rest(g) == r);
            assert(r[0] == g);
            assert(r.subrange(1, r.len() as int) =~= Seq::<Seq<TokenModel>>::empty());
            assert(resolved_args(Seq::<Seq<TokenModel>>::empty()));
            assert(resolved_args(r));
        },
        Some(i) => {
            let chunk = g.subrange(0, i);
            let rest = g.subrange(i + 1, g.len() as int);
            assert(resolved_tokens(chunk));
            assert(resolved_tokens(rest));
            lemma_split_rest_resolved(rest);
            let r = seq![chunk] + spec_split_rest(rest);
            assert(spec_split_rest(g) == r);
            assert(r[0] == chunk);
            assert(r.subrange(1, r.len() as int) =~= spec_split_rest(rest));
            assert(resolved_args(r));
        },
    }
}

/// Resolving the keywords of an inner-resolved sequence leaves no
/// keyword anywhere.
proof fn lemma_resolve_keywords_resolved(s: Seq<TokenModel>)
    requires
        inner_resolved_tokens(s),
    ensures
        resolve_keywords(s) matches Ok(r) ==> resolved_tokens(r),
    decreases s.len(),
{
    broadcast use lemma_inner_resolved_tokens, lemma_resolved_tokens;

    if s.len() > 0 {
        match s[0] {
            TokenModel::Keyword(name) => {
                match (spec_lookup_function(name), spec_lookup_constant(name)) {
                    (Some(f), None) => {
                        if s.len() >= 2 && s[1] is Group {
                            match s[1] {
                                TokenModel::Group(g) => {
                                    assert(resolved_tokens(g));
                                    if g.len() > 0 {
                                        lemma_split_rest_resolved(g);
                                    }
                                    let sub = s.subrange(2, s.len() as int);
                                    assert(inner_resolved_tokens(sub));
                                    lemma_resolve_keywords_resolved(sub);
                                    match resolve_keywords(sub) {
                                        Ok(rest) => {
                                            let h = TokenModel::Function(
                                                f,
                                                spec_split_args(g),
                                            );
                                            assert(resolved_token(h));
                                            let r = seq![h] + rest;
                                            assert(r[0] == h);
                                            assert(r.subrange(1, r.len() as int) =~= rest);
                                        },
                                        Err(_) => {},
                                    }
                                },
                                _ => {},
                            }
                        }
                    },
                    (None, Some(k)) => {
                        let sub = s.subrange(1, s.len() as int);
                        assert(inner_resolved_tokens(sub));
                        lemma_resolve_keywords_resolved(sub);
                        match resolve_keywords(sub) {
                            Ok(rest) => {
                                let r = seq![TokenModel::Constant(k)] + rest;
                                assert(r[0] == TokenModel::Constant(k));
                                assert(r.subrange(1, r.len() as int) =~= rest);
                            },
                            Err(_) => {},
                        }
                    },
                    _ => {},
                }
            },
            _ => {
                let sub = s.subrange(1, s.len() as int);
                assert(inner_resolved_tokens(sub));
                lemma_resolve_keywords_resolved(sub);
                match resolve_keywords(sub) {
                    Ok(rest) => {
                        assert(resolved_token(s[0]));
                        let r = seq![s[0]] + rest;
                        assert(r[0] == s[0]);
                        assert(r.subrange(1, r.len() as int) =~= rest);
                    },
                    Err(_) => {},
                }
            },
        }
    }
}

/// Resolving the groups of a raw sequence leaves every group's
/// contents fully resolved.
proof fn lemma_resolve_groups_inner(s: Seq<TokenModel>)
    requires
        raw_tokens(s),
    ensures
        resolve_groups(s) matches Ok(r) ==> inner_resolved_tokens(r),
    decreases s, 0int,
{
    broadcast use lemma_raw_tokens, lemma_inner_resolved_tokens;

    if s.len() > 0 {
        match s[0] {
            TokenModel::Group(g) => {
                assert(decreases_to!(s => s[0]));
                assert(decreases_to!(s[0] => g));
                assert(raw_tokens(g));
                lemma_resolve_resolved(g);
            },
            _ => {},
        }
        let sub = s.subrange(1, s.len() as int);
        assert(raw_tokens(sub));
        lemma_resolve_groups_inner(sub);
        match resolve_groups(sub) {
            Ok(rest) => {
                match s[0] {
                    TokenModel::Group(g) => {
                        match resolve_spec(g) {
                            Ok(rg) => {
                                let h = TokenModel::Group(rg);
                                let r = seq![h] + rest;
                                assert(r[0] == h);
                                assert(r.subrange(1, r.len() as int) =~= rest);
                            },
                            Err(_) => {},
                        }
                    },
                    _ => {
                        let r = seq![s[0]] + rest;
                        assert(r[0] == s[0]);
                        assert(r.subrange(1, r.len() as int) =~= rest);
                        assert(inner_resolved_token(s[0]));
                    },
                }
            },
            Err(_) => {},
        }
    }
}

/// Law: resolving a sequence of the shape the tokenizer produces
/// leaves no `Keyword` token anywhere in the result, however deeply
/// nested.
pub proof fn lemma_resolve_resolved(s: Seq<TokenModel>)
    requires
        raw_tokens(s),
    ensures
        resolve_spec(s) matches Ok(r) ==> resolved_tokens(r),
    decreases s, 1int,
{
    lemma_resolve_groups_inner(s);
    match resolve_groups(s) {
        Ok(s1) => lemma_resolve_keywords_resolved(s1),
        Err(_) => {},
    }
}

/// Law: resolving the keywords of a sequence without groups never
/// reports a registry conflict, because the registries are disjoint.
proof fn lemma_keywords_no_conflict(s: Seq<TokenModel>)
    ensures
        resolve_keywords(s) != Err::<Seq<TokenModel>, ErrorModel>(ErrorModel::ProgramIsStupid),
    decreases s.len(),
{
    if s.len() > 0 {
        match s[0] {
            TokenModel::Keyword(name) => {
                crate::keywords::lemma_registries_disjoint(name);
                match (spec_lookup_function(name), spec_lookup_constant(name)) {
                    (Some(_), None) => {
                        if s.len() >= 2 && s[1] is Group {
                            lemma_keywords_no_conflict(s.subrange(2, s.len() as int));
                        }
                    },
                    (None, Some(_)) => {
                        lemma_keywords_no_conflict(s.subrange(1, s.len() as int));
                    },
                    _ => {},
                }
            },
            _ => {
                lemma_keywords_no_conflict(s.subrange(1, s.len() as int));
            },
        }
    }
}

/// Law: resolving group contents never reports a registry conflict.
proof fn lemma_groups_no_conflict(s: Seq<TokenModel>)
    ensures
        resolve_groups(s) != Err::<Seq<TokenModel>, ErrorModel>(ErrorModel::ProgramIsStupid),
    decreases s, 0int,
{
    if s.len() > 0 {
        match s[0] {
            TokenModel::Group(g) => {
                assert(decreases_to!(s => s[0]));
                assert(decreases_to!(s[0] => g));
                lemma_resolve_no_conflict(g);
            },
            _ => {},
        }
        lemma_groups_no_conflict(s.subrange(1, s.len() as int));
    }
}

/// Law: the keyword resolver never reports a registry conflict on any
/// input whatsoever, because the function registry and the constant
/// registry are disjoint.  The conflict error exists only to guard
/// against a mis-configured registry pair.
pub proof fn lemma_resolve_no_conflict(s: Seq<TokenModel>)
    ensures
        resolve_spec(s) != Err::<Seq<TokenModel>, ErrorModel>(ErrorModel::ProgramIsStupid),
    decreases s, 1int,
{
    lemma_groups_no_conflict(s);
    match resolve_groups(s) {
        Ok(s1) => lemma_keywords_no_conflict(s1),
        Err(_) => {},
    }
}

} // verus!
