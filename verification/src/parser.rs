//! Recursive-descent parser: tokens to syntax tree.
//!
//! The grammar is written once as spec functions over the abstract token sequence
//! (`*_s`), each executable parsing function is proved to compute exactly its spec
//! counterpart. Precedence, from weakest to strongest: `ou` < `et` < comparisons < `+ -` <
//! `* /` < unary `pas`/`-`; binary operators associate to the left.

use vstd::prelude::*;
use crate::ast::{AssignOp, BinOp, Block, BlockV, Bot, BotV, Expr, ExprKind, ExprKindV, ExprV, Field, FieldInit, FieldV, Item, ItemV, Pano, PanoV, Param, ParamV, Perso, PersoV, Pragma, PragmaV, Program, ProgramV, Stmt, StmtV, Type, TypeV, UnOp, Variant, VariantV, exprs_v, fields_init_v, stmts_v};
use crate::lexer::{code, code_v, lex_from, skip_trivia, token_spec, tokenize, tokens_of, Spanned, SpannedV, Token, TokenV};
use crate::text::{owned, push_text, string_is};

verus! {

/// Parse error with its position (1-based).
#[derive(Debug, Clone, PartialEq, Eq)]
pub struct ParseError {
    pub msg: String,
    pub line: u32,
    pub col: u32,
}

pub struct ErrV {
    pub msg: Seq<char>,
    pub line: u32,
    pub col: u32,
}

impl View for ParseError {
    type V = ErrV;

    open spec fn view(&self) -> ErrV {
        ErrV { msg: self.msg@, line: self.line, col: self.col }
    }
}

/// Text of a parse error as the driver prints it: `msg (ligne L, colonne C)`.
pub open spec fn parse_error_text(e: ErrV) -> Seq<char> {
    e.msg + " (ligne "@ + crate::text::decimal(e.line as int) + ", colonne "@
        + crate::text::decimal(e.col as int) + ")"@
}

impl ParseError {
    /// Renders the error, e.g. `« } » manquant (ligne 2, colonne 21)`.
    pub fn message(&self) -> (s: String)
        ensures
            s@ == parse_error_text(self@),
    {
        let mut s = self.msg.clone();
        push_text(&mut s, " (ligne ");
        let l = crate::text::int_text(self.line as i64);
        push_text(&mut s, l.as_str());
        push_text(&mut s, ", colonne ");
        let c = crate::text::int_text(self.col as i64);
        push_text(&mut s, c.as_str());
        push_text(&mut s, ")");
        s
    }
}

// ------------------------------------------------------------------ spec grammar: helpers

/// Position reported for an error at token index `p` (the last token at end of input).
pub open spec fn here(ts: Seq<SpannedV>, p: int) -> (u32, u32) {
    if 0 <= p < ts.len() {
        (ts[p].line, ts[p].col)
    } else if ts.len() > 0 {
        (ts.last().line, ts.last().col)
    } else {
        (1, 1)
    }
}

pub open spec fn err_at(ts: Seq<SpannedV>, p: int, msg: Seq<char>) -> ErrV {
    ErrV { msg, line: here(ts, p).0, col: here(ts, p).1 }
}

/// The token at `p` has the variant of `k`.
pub open spec fn at_s(ts: Seq<SpannedV>, p: int, k: TokenV) -> bool {
    0 <= p < ts.len() && code_v(ts[p].tok) == code_v(k)
}

/// Position `q` reached after position `p`, kept inside `(p, len + 1]`.
pub open spec fn step(q: int, p: int, len: int) -> int {
    if p < q <= len + 1 { q } else { len + 1 }
}

pub open spec fn expect_s(ts: Seq<SpannedV>, p: int, k: TokenV, msg: Seq<char>) -> Result<int, ErrV> {
    if at_s(ts, p, k) { Ok(p + 1) } else { Err(err_at(ts, p, msg)) }
}

pub open spec fn ident_s(ts: Seq<SpannedV>, p: int) -> Result<(Seq<char>, int), ErrV> {
    if 0 <= p < ts.len() {
        match ts[p].tok {
            TokenV::Ident(s) => Ok((s, p + 1)),
            _ => Err(err_at(ts, p, "identifiant attendu"@)),
        }
    } else {
        Err(err_at(ts, p, "identifiant attendu"@))
    }
}

/// The token at `p` is the identifier `w`.
pub open spec fn word_at(ts: Seq<SpannedV>, p: int, w: Seq<char>) -> bool {
    0 <= p < ts.len() && ts[p].tok == TokenV::Ident(w)
}

pub open spec fn int_s(ts: Seq<SpannedV>, p: int) -> Result<(i64, int), ErrV> {
    if 0 <= p < ts.len() {
        match ts[p].tok {
            TokenV::Int(n) => Ok((n, p + 1)),
            _ => Err(err_at(ts, p, "entier attendu"@)),
        }
    } else {
        Err(err_at(ts, p, "entier attendu"@))
    }
}

pub open spec fn type_of_name(n: Seq<char>) -> TypeV {
    if n == "kamas"@ {
        TypeV::Kamas
    } else if n == "flag"@ {
        TypeV::Flag
    } else if n == "txt"@ {
        TypeV::Txt
    } else if n == "afk_total"@ {
        TypeV::AfkTotal
    } else {
        TypeV::Named(n)
    }
}

pub open spec fn type_s(ts: Seq<SpannedV>, p: int) -> Result<(TypeV, int), ErrV> {
    match ident_s(ts, p) {
        Ok((n, q)) => Ok((type_of_name(n), q)),
        Err(e) => Err(e),
    }
}

/// Binary node, positioned at its left operand.
pub open spec fn bin_v(op: BinOp, l: ExprV, r: ExprV) -> ExprV {
    ExprV { kind: ExprKindV::Binary(op, Box::new(l), Box::new(r)), line: l.line, col: l.col }
}

/// The token at `p` can start an expression.
pub open spec fn starts_expr_s(ts: Seq<SpannedV>, p: int) -> bool {
    0 <= p < ts.len() && match ts[p].tok {
        TokenV::Int(_) | TokenV::Str(_) | TokenV::Ident(_) | TokenV::Legit | TokenV::Cheat
        | TokenV::Pa | TokenV::Pm | TokenV::Suspicion | TokenV::LParen | TokenV::Pas
        | TokenV::Minus => true,
        _ => false,
    }
}

pub open spec fn cmp_op(t: TokenV) -> Option<BinOp> {
    match t {
        TokenV::Lt => Some(BinOp::Lt),
        TokenV::Le => Some(BinOp::Le),
        TokenV::Gt => Some(BinOp::Gt),
        TokenV::Ge => Some(BinOp::Ge),
        TokenV::EqEq => Some(BinOp::Eq),
        TokenV::NotEq => Some(BinOp::Ne),
        _ => None,
    }
}

pub open spec fn add_op(t: TokenV) -> Option<BinOp> {
    match t {
        TokenV::Plus => Some(BinOp::Add),
        TokenV::Minus => Some(BinOp::Sub),
        _ => None,
    }
}

pub open spec fn mul_op(t: TokenV) -> Option<BinOp> {
    match t {
        TokenV::Star => Some(BinOp::Mul),
        TokenV::Slash => Some(BinOp::Div),
        _ => None,
    }
}

pub open spec fn op_at(ts: Seq<SpannedV>, p: int, level: int) -> Option<BinOp> {
    if 0 <= p < ts.len() {
        if level == 0 { cmp_op(ts[p].tok) } else if level == 1 { add_op(ts[p].tok) } else { mul_op(ts[p].tok) }
    } else {
        None
    }
}

/// The tokens at `p` open a record construction `Name { field :`.
pub open spec fn struct_ahead(ts: Seq<SpannedV>, p: int) -> bool {
    at_s(ts, p + 1, TokenV::LBrace) && 0 <= p + 2 < ts.len() && (ts[p + 2].tok is Ident)
        && at_s(ts, p + 3, TokenV::Colon)
}

// ------------------------------------------------------------------ spec grammar: expressions

pub open spec fn expr_s(ts: Seq<SpannedV>, p: int) -> Result<(ExprV, int), ErrV>
    decreases ts.len() + 1 - p, 20int,
{
    if p < 0 || p > ts.len() {
        Err(err_at(ts, p, Seq::empty()))
    } else {
        or_s(ts, p)
    }
}

pub open spec fn or_s(ts: Seq<SpannedV>, p: int) -> Result<(ExprV, int), ErrV>
    decreases ts.len() + 1 - p, 19int,
{
    if p < 0 || p > ts.len() {
        Err(err_at(ts, p, Seq::empty()))
    } else {
        match and_s(ts, p) {
            Ok((l, q)) => or_rest_s(ts, step(q, p, ts.len() as int), l),
            Err(e) => Err(e),
        }
    }
}

pub open spec fn or_rest_s(ts: Seq<SpannedV>, p: int, lhs: ExprV) -> Result<(ExprV, int), ErrV>
    decreases ts.len() + 1 - p, 19int,
{
    if p < 0 || p > ts.len() {
        Err(err_at(ts, p, Seq::empty()))
    } else if at_s(ts, p, TokenV::Ou) {
        match and_s(ts, p + 1) {
            Ok((r, q)) => or_rest_s(ts, step(q, p, ts.len() as int), bin_v(BinOp::Or, lhs, r)),
            Err(e) => Err(e),
        }
    } else {
        Ok((lhs, p))
    }
}

pub open spec fn and_s(ts: Seq<SpannedV>, p: int) -> Result<(ExprV, int), ErrV>
    decreases ts.len() + 1 - p, 18int,
{
    if p < 0 || p > ts.len() {
        Err(err_at(ts, p, Seq::empty()))
    } else {
        match level_s(ts, p, 0) {
            Ok((l, q)) => and_rest_s(ts, step(q, p, ts.len() as int), l),
            Err(e) => Err(e),
        }
    }
}

pub open spec fn and_rest_s(ts: Seq<SpannedV>, p: int, lhs: ExprV) -> Result<(ExprV, int), ErrV>
    decreases ts.len() + 1 - p, 18int,
{
    if p < 0 || p > ts.len() {
        Err(err_at(ts, p, Seq::empty()))
    } else if at_s(ts, p, TokenV::Et) {
        match level_s(ts, p + 1, 0) {
            Ok((r, q)) => and_rest_s(ts, step(q, p, ts.len() as int), bin_v(BinOp::And, lhs, r)),
            Err(e) => Err(e),
        }
    } else {
        Ok((lhs, p))
    }
}

/// Left-associative binary level: 0 comparisons, 1 `+ -`, 2 `* /`; level 3 is unary.
pub open spec fn level_s(ts: Seq<SpannedV>, p: int, level: int) -> Result<(ExprV, int), ErrV>
    decreases ts.len() + 1 - p, 17 - level,
{
    if p < 0 || p > ts.len() || level < 0 || level > 3 {
        Err(err_at(ts, p, Seq::empty()))
    } else if level == 3 {
        unary_s(ts, p)
    } else {
        match level_s(ts, p, level + 1) {
            Ok((l, q)) => level_rest_s(ts, step(q, p, ts.len() as int), l, level),
            Err(e) => Err(e),
        }
    }
}

pub open spec fn level_rest_s(ts: Seq<SpannedV>, p: int, lhs: ExprV, level: int) -> Result<(ExprV, int), ErrV>
    decreases ts.len() + 1 - p, 17 - level,
{
    if p < 0 || p > ts.len() || level < 0 || level > 2 {
        Err(err_at(ts, p, Seq::empty()))
    } else {
        match op_at(ts, p, level) {
            Some(op) => match level_s(ts, p + 1, level + 1) {
                Ok((r, q)) => level_rest_s(ts, step(q, p, ts.len() as int), bin_v(op, lhs, r), level),
                Err(e) => Err(e),
            },
            None => Ok((lhs, p)),
        }
    }
}

/// After an operand, a comparison token joins it to the next operand with the operator it
/// spells — `<` Lt, `<=` Le, `>` Gt, `>=` Ge, `==` Eq, `!=` Ne — and any other token ends
/// the comparison; likewise `+` Add and `-` Sub one level down, `*` Mul and `/` Div below.
pub proof fn lemma_operator_tokens(ts: Seq<SpannedV>, p: int, lhs: ExprV, level: int)
    requires
        0 <= p < ts.len(),
        0 <= level <= 2,
    ensures
        ({
            let t = ts[p].tok;
            let spelled: Option<BinOp> = if level == 0 {
                if t == TokenV::Lt { Some(BinOp::Lt) }
                else if t == TokenV::Le { Some(BinOp::Le) }
                else if t == TokenV::Gt { Some(BinOp::Gt) }
                else if t == TokenV::Ge { Some(BinOp::Ge) }
                else if t == TokenV::EqEq { Some(BinOp::Eq) }
                else if t == TokenV::NotEq { Some(BinOp::Ne) }
                else { None }
            } else if level == 1 {
                if t == TokenV::Plus { Some(BinOp::Add) }
                else if t == TokenV::Minus { Some(BinOp::Sub) }
                else { None }
            } else {
                if t == TokenV::Star { Some(BinOp::Mul) }
                else if t == TokenV::Slash { Some(BinOp::Div) }
                else { None }
            };
            level_rest_s(ts, p, lhs, level) == match spelled {
                Some(op) => match level_s(ts, p + 1, level + 1) {
                    Ok((r, q)) => level_rest_s(ts, step(q, p, ts.len() as int), bin_v(op, lhs, r), level),
                    Err(e) => Err(e),
                },
                None => Ok((lhs, p)),
            }
        }),
{
}

/// A leading `-` negates the operand that follows it, a leading `pas` takes its logical
/// negation.
pub proof fn lemma_prefix_tokens(ts: Seq<SpannedV>, p: int)
    requires
        0 <= p < ts.len(),
        ts[p].tok == TokenV::Minus || ts[p].tok == TokenV::Pas,
    ensures
        ({
            let op = if ts[p].tok == TokenV::Minus { UnOp::Neg } else { UnOp::Not };
            unary_s(ts, p) == match unary_s(ts, p + 1) {
                Ok((e, q)) => Ok((ExprV { kind: ExprKindV::Unary(op, Box::new(e)), line: here(ts, p).0, col: here(ts, p).1 }, q)),
                Err(e) => Err(e),
            }
        }),
{
}

pub open spec fn unary_s(ts: Seq<SpannedV>, p: int) -> Result<(ExprV, int), ErrV>
    decreases ts.len() + 1 - p, 13int,
{
    if p < 0 || p > ts.len() {
        Err(err_at(ts, p, Seq::empty()))
    } else if at_s(ts, p, TokenV::Pas) || at_s(ts, p, TokenV::Minus) {
        let op = if at_s(ts, p, TokenV::Pas) { UnOp::Not } else { UnOp::Neg };
        match unary_s(ts, p + 1) {
            Ok((e, q)) => Ok((ExprV { kind: ExprKindV::Unary(op, Box::new(e)), line: here(ts, p).0, col: here(ts, p).1 }, q)),
            Err(e) => Err(e),
        }
    } else {
        primary_s(ts, p)
    }
}

pub open spec fn primary_s(ts: Seq<SpannedV>, p: int) -> Result<(ExprV, int), ErrV>
    decreases ts.len() + 1 - p, 12int,
{
    if p < 0 || p >= ts.len() {
        Err(err_at(ts, p, "expression attendue"@))
    } else {
        let (line, col) = here(ts, p);
        let leaf = |k: ExprKindV| Ok::<(ExprV, int), ErrV>((ExprV { kind: k, line, col }, p + 1));
        match ts[p].tok {
            TokenV::Int(n) => leaf(ExprKindV::Int(n)),
            TokenV::Str(s) => leaf(ExprKindV::Str(s)),
            TokenV::Legit => leaf(ExprKindV::Bool(true)),
            TokenV::Cheat => leaf(ExprKindV::Bool(false)),
            TokenV::Pa => leaf(ExprKindV::Pa),
            TokenV::Pm => leaf(ExprKindV::Pm),
            TokenV::Suspicion => leaf(ExprKindV::Suspicion),
            TokenV::LParen => match expr_s(ts, p + 1) {
                Ok((e, q)) => match expect_s(ts, q, TokenV::RParen, "attendu « ) »"@) {
                    Ok(q2) => Ok((e, q2)),
                    Err(err) => Err(err),
                },
                Err(err) => Err(err),
            },
            TokenV::Ident(name) => {
                if at_s(ts, p + 1, TokenV::LParen) {
                    match args_s(ts, p + 1) {
                        Ok((args, q)) => Ok((ExprV { kind: ExprKindV::Call(name, args), line, col }, q)),
                        Err(e) => Err(e),
                    }
                } else if struct_ahead(ts, p) {
                    match fields_rest_s(ts, p + 2, Seq::empty()) {
                        Ok((fields, q)) => match expect_s(ts, q, TokenV::RBrace, "attendu « } »"@) {
                            Ok(q2) => Ok((ExprV { kind: ExprKindV::Struct(name, fields), line, col }, q2)),
                            Err(e) => Err(e),
                        },
                        Err(e) => Err(e),
                    }
                } else if at_s(ts, p + 1, TokenV::Dot) {
                    match ident_s(ts, p + 2) {
                        Ok((member, q)) => Ok((ExprV { kind: ExprKindV::Path(name, member), line, col }, q)),
                        Err(e) => Err(e),
                    }
                } else {
                    leaf(ExprKindV::Var(name))
                }
            },
            _ => Err(err_at(ts, p, "expression attendue"@)),
        }
    }
}

/// Call arguments `( expr, … )` starting at the `(`.
pub open spec fn args_s(ts: Seq<SpannedV>, p: int) -> Result<(Seq<ExprV>, int), ErrV>
    decreases ts.len() + 1 - p, 11int,
{
    if p < 0 || p > ts.len() {
        Err(err_at(ts, p, Seq::empty()))
    } else {
        match expect_s(ts, p, TokenV::LParen, "attendu « ( »"@) {
            Ok(q) => {
                if at_s(ts, q, TokenV::RParen) {
                    Ok((Seq::empty(), q + 1))
                } else {
                    match args_rest_s(ts, q, Seq::empty()) {
                        Ok((args, q2)) => match expect_s(ts, q2, TokenV::RParen, "attendu « ) »"@) {
                            Ok(q3) => Ok((args, q3)),
                            Err(e) => Err(e),
                        },
                        Err(e) => Err(e),
                    }
                }
            },
            Err(e) => Err(e),
        }
    }
}

/// `expr { , expr }` appended to `acc`.
pub open spec fn args_rest_s(ts: Seq<SpannedV>, p: int, acc: Seq<ExprV>) -> Result<(Seq<ExprV>, int), ErrV>
    decreases ts.len() + 1 - p, 21int,
{
    if p < 0 || p > ts.len() {
        Err(err_at(ts, p, Seq::empty()))
    } else {
        match expr_s(ts, p) {
            Ok((e, q)) => {
                let q1 = step(q, p, ts.len() as int);
                if at_s(ts, q1, TokenV::Comma) {
                    args_rest_s(ts, q1 + 1, acc.push(e))
                } else {
                    Ok((acc.push(e), q1))
                }
            },
            Err(err) => Err(err),
        }
    }
}

/// `field : expr { , field : expr }` appended to `acc`.
pub open spec fn fields_rest_s(ts: Seq<SpannedV>, p: int, acc: Seq<(Seq<char>, ExprV)>) -> Result<(Seq<(Seq<char>, ExprV)>, int), ErrV>
    decreases ts.len() + 1 - p, 21int,
{
    if p < 0 || p > ts.len() {
        Err(err_at(ts, p, Seq::empty()))
    } else {
        match ident_s(ts, p) {
            Ok((f, q)) => match expect_s(ts, q, TokenV::Colon, "attendu « : »"@) {
                Ok(q1) => match expr_s(ts, q1) {
                    Ok((e, q2)) => {
                        let q3 = step(q2, p, ts.len() as int);
                        if at_s(ts, q3, TokenV::Comma) {
                            fields_rest_s(ts, q3 + 1, acc.push((f, e)))
                        } else {
                            Ok((acc.push((f, e)), q3))
                        }
                    },
                    Err(err) => Err(err),
                },
                Err(err) => Err(err),
            },
            Err(err) => Err(err),
        }
    }
}

// ------------------------------------------------------------------ spec grammar: statements

pub open spec fn block_s(ts: Seq<SpannedV>, p: int) -> Result<(BlockV, int), ErrV>
    decreases ts.len() + 1 - p, 30int,
{
    if p < 0 || p > ts.len() {
        Err(err_at(ts, p, Seq::empty()))
    } else {
        match expect_s(ts, p, TokenV::LBrace, "attendu « { »"@) {
            Ok(q) => stmts_s(ts, q, Seq::empty()),
            Err(e) => Err(e),
        }
    }
}

/// Statements up to and including the closing `}`, appended to `acc`.
pub open spec fn stmts_s(ts: Seq<SpannedV>, p: int, acc: Seq<StmtV>) -> Result<(BlockV, int), ErrV>
    decreases ts.len() + 1 - p, 29int,
{
    if p < 0 || p > ts.len() {
        Err(err_at(ts, p, Seq::empty()))
    } else if at_s(ts, p, TokenV::RBrace) {
        Ok((BlockV { stmts: acc }, p + 1))
    } else if p >= ts.len() {
        Err(err_at(ts, p, "« } » manquant"@))
    } else {
        match stmt_s(ts, p) {
            Ok((s, q)) => stmts_s(ts, step(q, p, ts.len() as int), acc.push(s)),
            Err(e) => Err(e),
        }
    }
}

/// The assignment operator at `p`, if any.
pub open spec fn assign_op_at(ts: Seq<SpannedV>, p: int) -> Option<AssignOp> {
    if 0 <= p < ts.len() {
        match ts[p].tok {
            TokenV::Eq => Some(AssignOp::Replace),
            TokenV::PlusEq => Some(AssignOp::Add),
            TokenV::MinusEq => Some(AssignOp::Sub),
            _ => None,
        }
    } else {
        None
    }
}

pub open spec fn stmt_s(ts: Seq<SpannedV>, p: int) -> Result<(StmtV, int), ErrV>
    decreases ts.len() + 1 - p, 28int,
{
    if p < 0 || p >= ts.len() {
        Err(err_at(ts, p, "instruction attendue"@))
    } else {
        match ts[p].tok {
            TokenV::Loot | TokenV::Ban => decl_s(ts, p),
            TokenV::Tour => match block_s(ts, p + 1) {
                Ok((b, q)) => Ok((StmtV::Tour(b), q)),
                Err(e) => Err(e),
            },
            TokenV::Passer => Ok((StmtV::Passer, p + 1)),
            TokenV::Farm => match expr_s(ts, p + 1) {
                Ok((cond, q)) => match block_s(ts, step(q, p, ts.len() as int)) {
                    Ok((body, q2)) => Ok((StmtV::Farm { cond, body }, q2)),
                    Err(e) => Err(e),
                },
                Err(e) => Err(e),
            },
            TokenV::Grind => match ident_s(ts, p + 1) {
                Ok((var, q)) => {
                    if !word_at(ts, q, "de"@) {
                        Err(err_at(ts, q, "attendu « de »"@))
                    } else {
                        match expr_s(ts, q + 1) {
                            Ok((from, q1)) => {
                                let q1 = step(q1, p, ts.len() as int);
                                if !word_at(ts, q1, "a"@) {
                                    Err(err_at(ts, q1, "attendu « a »"@))
                                } else {
                                    match expr_s(ts, q1 + 1) {
                                        Ok((to, q2)) => match block_s(ts, step(q2, p, ts.len() as int)) {
                                            Ok((body, q3)) => Ok((StmtV::Grind { var, from, to, body }, q3)),
                                            Err(e) => Err(e),
                                        },
                                        Err(e) => Err(e),
                                    }
                                }
                            },
                            Err(e) => Err(e),
                        }
                    }
                },
                Err(e) => Err(e),
            },
            TokenV::Detect => match expr_s(ts, p + 1) {
                Ok((cond, q)) => match block_s(ts, step(q, p, ts.len() as int)) {
                    Ok((then_branch, q2)) => {
                        let q2 = step(q2, p, ts.len() as int);
                        if at_s(ts, q2, TokenV::Sinon) {
                            match block_s(ts, q2 + 1) {
                                Ok((eb, q3)) => Ok((StmtV::Detect { cond, then_branch, else_branch: Some(eb) }, q3)),
                                Err(e) => Err(e),
                            }
                        } else {
                            Ok((StmtV::Detect { cond, then_branch, else_branch: None }, q2))
                        }
                    },
                    Err(e) => Err(e),
                },
                Err(e) => Err(e),
            },
            TokenV::Gg => {
                if starts_expr_s(ts, p + 1) {
                    match expr_s(ts, p + 1) {
                        Ok((e, q)) => Ok((StmtV::Gg(Some(e)), q)),
                        Err(err) => Err(err),
                    }
                } else {
                    Ok((StmtV::Gg(None), p + 1))
                }
            },
            TokenV::Up => match expr_s(ts, p + 1) {
                Ok((e, q)) => Ok((StmtV::Up(e), q)),
                Err(err) => Err(err),
            },
            TokenV::Afk => match expr_s(ts, p + 1) {
                Ok((e, q)) => Ok((StmtV::Afk(e), q)),
                Err(err) => Err(err),
            },
            TokenV::Ident(name) => {
                match assign_op_at(ts, p + 1) {
                    Some(op) => match expr_s(ts, p + 2) {
                        Ok((value, q)) => Ok((StmtV::Assign { name, op, value, line: here(ts, p).0, col: here(ts, p).1 }, q)),
                        Err(e) => Err(e),
                    },
                    None => match expr_s(ts, p) {
                        Ok((e, q)) => Ok((StmtV::Expr(e), q)),
                        Err(err) => Err(err),
                    },
                }
            },
            _ => match expr_s(ts, p) {
                Ok((e, q)) => Ok((StmtV::Expr(e), q)),
                Err(err) => Err(err),
            },
        }
    }
}

/// `loot`/`ban IDENT [: type] = expr`, starting at the keyword.
pub open spec fn decl_s(ts: Seq<SpannedV>, p: int) -> Result<(StmtV, int), ErrV>
    decreases ts.len() + 1 - p, 27int,
{
    if p < 0 || p >= ts.len() {
        Err(err_at(ts, p, Seq::empty()))
    } else {
        match ident_s(ts, p + 1) {
            Ok((name, q)) => {
                let typed = if at_s(ts, q, TokenV::Colon) { type_s(ts, q + 1) } else { Ok((TypeV::Kamas, q)) };
                match typed {
                    Ok((t, q1)) => {
                        let ty = if at_s(ts, q, TokenV::Colon) { Some(t) } else { None };
                        match expect_s(ts, q1, TokenV::Eq, "attendu « = »"@) {
                            Ok(q2) => match expr_s(ts, q2) {
                                Ok((value, q3)) => Ok((
                                    if at_s(ts, p, TokenV::Ban) { StmtV::Ban { name, ty, value } } else { StmtV::Loot { name, ty, value } },
                                    q3,
                                )),
                                Err(e) => Err(e),
                            },
                            Err(e) => Err(e),
                        }
                    },
                    Err(e) => Err(e),
                }
            },
            Err(e) => Err(e),
        }
    }
}

// ------------------------------------------------------------------ spec grammar: items

pub open spec fn pragmas_s(ts: Seq<SpannedV>, p: int, acc: Seq<PragmaV>) -> Result<(Seq<PragmaV>, int), ErrV>
    decreases ts.len() + 1 - p,
{
    if p < 0 || p > ts.len() {
        Err(err_at(ts, p, Seq::empty()))
    } else if at_s(ts, p, TokenV::Hash) {
        match ident_s(ts, p + 1) {
            Ok((key, q)) => match int_s(ts, q) {
                Ok((value, q2)) => pragmas_s(
                    ts,
                    step(q2, p, ts.len() as int),
                    acc.push(PragmaV { key, value, line: here(ts, p).0, col: here(ts, p).1 }),
                ),
                Err(e) => Err(e),
            },
            Err(e) => Err(e),
        }
    } else {
        Ok((acc, p))
    }
}

pub open spec fn params_s(ts: Seq<SpannedV>, p: int, acc: Seq<ParamV>) -> Result<(Seq<ParamV>, int), ErrV>
    decreases ts.len() + 1 - p,
{
    if p < 0 || p > ts.len() {
        Err(err_at(ts, p, Seq::empty()))
    } else {
        match ident_s(ts, p) {
            Ok((name, q)) => match expect_s(ts, q, TokenV::Colon, "attendu « : »"@) {
                Ok(q1) => match type_s(ts, q1) {
                    Ok((ty, q2)) => {
                        let q2 = step(q2, p, ts.len() as int);
                        if at_s(ts, q2, TokenV::Comma) {
                            params_s(ts, q2 + 1, acc.push(ParamV { name, ty }))
                        } else {
                            Ok((acc.push(ParamV { name, ty }), q2))
                        }
                    },
                    Err(e) => Err(e),
                },
                Err(e) => Err(e),
            },
            Err(e) => Err(e),
        }
    }
}

/// Optional suffixes `, coute N pa` and `, cd M`, in any order and number.
pub open spec fn suffixes_s(ts: Seq<SpannedV>, p: int, cost: Option<i64>, cd: Option<i64>) -> Result<(Option<i64>, Option<i64>, int), ErrV>
    decreases ts.len() + 1 - p,
{
    if p < 0 || p > ts.len() {
        Err(err_at(ts, p, Seq::empty()))
    } else if at_s(ts, p, TokenV::Comma) {
        if at_s(ts, p + 1, TokenV::Coute) {
            match int_s(ts, p + 2) {
                Ok((n, q)) => match expect_s(ts, q, TokenV::Pa, "attendu « pa »"@) {
                    Ok(q2) => suffixes_s(ts, step(q2, p, ts.len() as int), Some(n), cd),
                    Err(e) => Err(e),
                },
                Err(e) => Err(e),
            }
        } else if at_s(ts, p + 1, TokenV::Cd) {
            match int_s(ts, p + 2) {
                Ok((n, q)) => suffixes_s(ts, step(q, p, ts.len() as int), cost, Some(n)),
                Err(e) => Err(e),
            }
        } else {
            Err(err_at(ts, p + 1, "attendu « coute » ou « cd » après « , »"@))
        }
    } else {
        Ok((cost, cd, p))
    }
}

pub open spec fn bot_s(ts: Seq<SpannedV>, p: int) -> Result<(BotV, int), ErrV> {
    match expect_s(ts, p, TokenV::Bot, "attendu « bot »"@) {
        Ok(q0) => match ident_s(ts, q0) {
            Ok((name, q)) => match expect_s(ts, q, TokenV::LParen, "attendu « ( »"@) {
                Ok(q1) => {
                    let params = if at_s(ts, q1, TokenV::RParen) { Ok((Seq::empty(), q1)) } else { params_s(ts, q1, Seq::empty()) };
                    match params {
                        Ok((params, q2)) => match expect_s(ts, q2, TokenV::RParen, "attendu « ) »"@) {
                            Ok(q3) => {
                                let ret = if at_s(ts, q3, TokenV::Colon) {
                                    match type_s(ts, q3 + 1) {
                                        Ok((t, q4)) => Ok((Some(t), q4)),
                                        Err(e) => Err(e),
                                    }
                                } else {
                                    Ok((None, q3))
                                };
                                match ret {
                                    Ok((ret, q4)) => match suffixes_s(ts, q4, None, None) {
                                        Ok((cost_pa, cd, q5)) => match block_s(ts, q5) {
                                            Ok((body, q6)) => Ok((BotV {
                                                name, params, ret, cost_pa, cd, body,
                                                line: here(ts, p).0, col: here(ts, p).1,
                                            }, q6)),
                                            Err(e) => Err(e),
                                        },
                                        Err(e) => Err(e),
                                    },
                                    Err(e) => Err(e),
                                }
                            },
                            Err(e) => Err(e),
                        },
                        Err(e) => Err(e),
                    }
                },
                Err(e) => Err(e),
            },
            Err(e) => Err(e),
        },
        Err(e) => Err(e),
    }
}

/// Optional pin `@N` at `p`.
pub open spec fn pin_s(ts: Seq<SpannedV>, p: int) -> Result<(Option<i64>, int), ErrV> {
    if at_s(ts, p, TokenV::At) {
        match int_s(ts, p + 1) {
            Ok((n, q)) => Ok((Some(n), q)),
            Err(e) => Err(e),
        }
    } else {
        Ok((None, p))
    }
}

pub open spec fn variants_s(ts: Seq<SpannedV>, p: int, acc: Seq<VariantV>) -> Result<(Seq<VariantV>, int), ErrV>
    decreases ts.len() + 1 - p,
{
    if p < 0 || p > ts.len() {
        Err(err_at(ts, p, Seq::empty()))
    } else if at_s(ts, p, TokenV::RBrace) {
        Ok((acc, p))
    } else if p >= ts.len() {
        Err(err_at(ts, p, "« } » manquant"@))
    } else {
        match pin_s(ts, p) {
            Ok((pin, q)) => match ident_s(ts, q) {
                Ok((name, q2)) => {
                    let q2 = step(q2, p, ts.len() as int);
                    if at_s(ts, q2, TokenV::Comma) {
                        variants_s(ts, q2 + 1, acc.push(VariantV { name, pin }))
                    } else {
                        Ok((acc.push(VariantV { name, pin }), q2))
                    }
                },
                Err(e) => Err(e),
            },
            Err(e) => Err(e),
        }
    }
}

pub open spec fn fields_s(ts: Seq<SpannedV>, p: int, acc: Seq<FieldV>) -> Result<(Seq<FieldV>, int), ErrV>
    decreases ts.len() + 1 - p,
{
    if p < 0 || p > ts.len() {
        Err(err_at(ts, p, Seq::empty()))
    } else if at_s(ts, p, TokenV::RBrace) {
        Ok((acc, p))
    } else if p >= ts.len() {
        Err(err_at(ts, p, "« } » manquant"@))
    } else {
        match pin_s(ts, p) {
            Ok((pin, q)) => match ident_s(ts, q) {
                Ok((name, q1)) => match expect_s(ts, q1, TokenV::Colon, "attendu « : »"@) {
                    Ok(q2) => match type_s(ts, q2) {
                        Ok((ty, q3)) => {
                            let q3 = step(q3, p, ts.len() as int);
                            if at_s(ts, q3, TokenV::Comma) {
                                fields_s(ts, q3 + 1, acc.push(FieldV { name, ty, pin }))
                            } else {
                                Ok((acc.push(FieldV { name, ty, pin }), q3))
                            }
                        },
                        Err(e) => Err(e),
                    },
                    Err(e) => Err(e),
                },
                Err(e) => Err(e),
            },
            Err(e) => Err(e),
        }
    }
}

/// `pano Name { … }` or `perso Name { … }` starting at the contextual keyword.
pub open spec fn decl_type_s(ts: Seq<SpannedV>, p: int, is_perso: bool) -> Result<(ItemV, int), ErrV> {
    match ident_s(ts, p + 1) {
        Ok((name, q)) => match expect_s(ts, q, TokenV::LBrace, "attendu « { »"@) {
            Ok(q1) => if is_perso {
                match fields_s(ts, q1, Seq::empty()) {
                    Ok((fields, q2)) => match expect_s(ts, q2, TokenV::RBrace, "attendu « } »"@) {
                        Ok(q3) => Ok((ItemV::Perso(PersoV { name, fields, line: here(ts, p).0, col: here(ts, p).1 }), q3)),
                        Err(e) => Err(e),
                    },
                    Err(e) => Err(e),
                }
            } else {
                match variants_s(ts, q1, Seq::empty()) {
                    Ok((variants, q2)) => match expect_s(ts, q2, TokenV::RBrace, "attendu « } »"@) {
                        Ok(q3) => Ok((ItemV::Pano(PanoV { name, variants, line: here(ts, p).0, col: here(ts, p).1 }), q3)),
                        Err(e) => Err(e),
                    },
                    Err(e) => Err(e),
                }
            },
            Err(e) => Err(e),
        },
        Err(e) => Err(e),
    }
}

pub open spec fn item_s(ts: Seq<SpannedV>, p: int) -> Result<(ItemV, int), ErrV> {
    if 0 <= p < ts.len() {
        match ts[p].tok {
            TokenV::Serveur => match ident_s(ts, p + 1) {
                Ok((name, q)) => Ok((ItemV::Serveur(name), q)),
                Err(e) => Err(e),
            },
            TokenV::Bot => match bot_s(ts, p) {
                Ok((b, q)) => Ok((ItemV::Bot(b), q)),
                Err(e) => Err(e),
            },
            TokenV::Connexion => match block_s(ts, p + 1) {
                Ok((b, q)) => Ok((ItemV::Connexion(b), q)),
                Err(e) => Err(e),
            },
            TokenV::Ident(w) => {
                if w == "pano"@ {
                    decl_type_s(ts, p, false)
                } else if w == "perso"@ {
                    decl_type_s(ts, p, true)
                } else {
                    Err(err_at(ts, p, "attendu « serveur », « bot », « pano », « perso » ou « connexion »"@))
                }
            },
            _ => Err(err_at(ts, p, "attendu « serveur », « bot », « pano », « perso » ou « connexion »"@)),
        }
    } else {
        Err(err_at(ts, p, "attendu « serveur », « bot », « pano », « perso » ou « connexion »"@))
    }
}

pub open spec fn items_s(ts: Seq<SpannedV>, p: int, acc: Seq<ItemV>) -> Result<Seq<ItemV>, ErrV>
    decreases ts.len() + 1 - p,
{
    if p < 0 || p >= ts.len() {
        Ok(acc)
    } else {
        match item_s(ts, p) {
            Ok((it, q)) => items_s(ts, step(q, p, ts.len() as int), acc.push(it)),
            Err(e) => Err(e),
        }
    }
}

/// The program denoted by a token sequence.
pub open spec fn program_s(ts: Seq<SpannedV>) -> Result<ProgramV, ErrV> {
    match pragmas_s(ts, 0, Seq::empty()) {
        Ok((pragmas, q)) => match items_s(ts, q, Seq::empty()) {
            Ok(items) => Ok(ProgramV { pragmas, items }),
            Err(e) => Err(e),
        },
        Err(e) => Err(e),
    }
}

/// The program denoted by a source text: lexical errors become `caractère invalide`.
pub open spec fn parse_spec(src: Seq<char>) -> Result<ProgramV, ErrV> {
    match tokens_of(src) {
        Ok(ts) => program_s(ts),
        Err((line, col)) => Err(ErrV { msg: "caractère invalide"@, line: line as u32, col: col as u32 }),
    }
}

// ------------------------------------------------------------------ executable parser

/// Abstract view of a token slice.
pub open spec fn tv(ts: Seq<Spanned>) -> Seq<SpannedV> {
    ts.map_values(|s: Spanned| s@)
}

pub open spec fn ok_pos(r: Result<usize, ParseError>, s: Result<int, ErrV>) -> bool {
    match r {
        Ok(q) => s == Ok::<int, ErrV>(q as int),
        Err(e) => s == Err::<int, ErrV>(e@),
    }
}

pub open spec fn ok_e(r: Result<(Expr, usize), ParseError>, s: Result<(ExprV, int), ErrV>) -> bool {
    match r {
        Ok((e, q)) => s == Ok::<(ExprV, int), ErrV>((e@, q as int)),
        Err(err) => s == Err::<(ExprV, int), ErrV>(err@),
    }
}

pub open spec fn ok_es(r: Result<(Vec<Expr>, usize), ParseError>, s: Result<(Seq<ExprV>, int), ErrV>) -> bool {
    match r {
        Ok((v, q)) => s == Ok::<(Seq<ExprV>, int), ErrV>((exprs_v(v@), q as int)),
        Err(err) => s == Err::<(Seq<ExprV>, int), ErrV>(err@),
    }
}

pub open spec fn ok_fs(r: Result<(Vec<FieldInit>, usize), ParseError>, s: Result<(Seq<(Seq<char>, ExprV)>, int), ErrV>) -> bool {
    match r {
        Ok((v, q)) => s == Ok::<(Seq<(Seq<char>, ExprV)>, int), ErrV>((fields_init_v(v@), q as int)),
        Err(err) => s == Err::<(Seq<(Seq<char>, ExprV)>, int), ErrV>(err@),
    }
}

pub open spec fn ok_st(r: Result<(Stmt, usize), ParseError>, s: Result<(StmtV, int), ErrV>) -> bool {
    match r {
        Ok((st, q)) => s == Ok::<(StmtV, int), ErrV>((st@, q as int)),
        Err(err) => s == Err::<(StmtV, int), ErrV>(err@),
    }
}

pub open spec fn ok_b(r: Result<(Block, usize), ParseError>, s: Result<(BlockV, int), ErrV>) -> bool {
    match r {
        Ok((b, q)) => s == Ok::<(BlockV, int), ErrV>((b@, q as int)),
        Err(err) => s == Err::<(BlockV, int), ErrV>(err@),
    }
}

proof fn lemma_exprs_push(s: Seq<Expr>, e: Expr)
    ensures
        exprs_v(s.push(e)) == exprs_v(s).push(e@),
{
    assert(s.push(e).drop_last() =~= s);
}

proof fn lemma_fields_push(s: Seq<FieldInit>, f: FieldInit)
    ensures
        fields_init_v(s.push(f)) == fields_init_v(s).push((f.name@, f.value@)),
{
    assert(s.push(f).drop_last() =~= s);
}

proof fn lemma_stmts_push(s: Seq<Stmt>, st: Stmt)
    ensures
        stmts_v(s.push(st)) == stmts_v(s).push(st@),
{
    assert(s.push(st).drop_last() =~= s);
}

fn here_x(ts: &[Spanned], p: usize) -> (r: (u32, u32))
    ensures
        r == here(tv(ts@), p as int),
{
    if p < ts.len() {
        (ts[p].line, ts[p].col)
    } else if ts.len() > 0 {
        (ts[ts.len() - 1].line, ts[ts.len() - 1].col)
    } else {
        (1, 1)
    }
}

fn fail(ts: &[Spanned], p: usize, msg: &str) -> (e: ParseError)
    ensures
        e@ == err_at(tv(ts@), p as int, msg@),
{
    let (line, col) = here_x(ts, p);
    ParseError { msg: owned(msg), line, col }
}

fn at(ts: &[Spanned], p: usize, k: &Token) -> (r: bool)
    ensures
        r == at_s(tv(ts@), p as int, k@),
{
    p < ts.len() && code(&ts[p].tok) == code(k)
}

fn expect_x(ts: &[Spanned], p: usize, k: &Token, msg: &str) -> (r: Result<usize, ParseError>)
    requires
        p <= ts.len(),
    ensures
        ok_pos(r, expect_s(tv(ts@), p as int, k@, msg@)),
        r matches Ok(q) ==> q == p + 1 && q <= ts.len(),
{
    if at(ts, p, k) {
        Ok(p + 1)
    } else {
        Err(fail(ts, p, msg))
    }
}

fn ident_x(ts: &[Spanned], p: usize) -> (r: Result<(String, usize), ParseError>)
    ensures
        match r {
            Ok((s, q)) => ident_s(tv(ts@), p as int) == Ok::<(Seq<char>, int), ErrV>((s@, q as int))
                && q == p + 1 && q <= ts.len(),
            Err(e) => ident_s(tv(ts@), p as int) == Err::<(Seq<char>, int), ErrV>(e@),
        },
{
    if p < ts.len() {
        match &ts[p].tok {
            Token::Ident(s) => Ok((s.clone(), p + 1)),
            _ => Err(fail(ts, p, "identifiant attendu")),
        }
    } else {
        Err(fail(ts, p, "identifiant attendu"))
    }
}

fn int_x(ts: &[Spanned], p: usize) -> (r: Result<(i64, usize), ParseError>)
    ensures
        match r {
            Ok((n, q)) => int_s(tv(ts@), p as int) == Ok::<(i64, int), ErrV>((n, q as int))
                && q == p + 1 && q <= ts.len(),
            Err(e) => int_s(tv(ts@), p as int) == Err::<(i64, int), ErrV>(e@),
        },
{
    if p < ts.len() {
        match &ts[p].tok {
            Token::Int(n) => Ok((*n, p + 1)),
            _ => Err(fail(ts, p, "entier attendu")),
        }
    } else {
        Err(fail(ts, p, "entier attendu"))
    }
}

fn word_x(ts: &[Spanned], p: usize, w: &str) -> (r: bool)
    ensures
        r == word_at(tv(ts@), p as int, w@),
{
    if p < ts.len() {
        match &ts[p].tok {
            Token::Ident(s) => string_is(s, w),
            _ => false,
        }
    } else {
        false
    }
}

fn type_x(ts: &[Spanned], p: usize) -> (r: Result<(Type, usize), ParseError>)
    ensures
        match r {
            Ok((t, q)) => type_s(tv(ts@), p as int) == Ok::<(TypeV, int), ErrV>((t@, q as int))
                && q == p + 1 && q <= ts.len(),
            Err(e) => type_s(tv(ts@), p as int) == Err::<(TypeV, int), ErrV>(e@),
        },
{
    match ident_x(ts, p) {
        Ok((name, q)) => {
            let t = if string_is(&name, "kamas") {
                Type::Kamas
            } else if string_is(&name, "flag") {
                Type::Flag
            } else if string_is(&name, "txt") {
                Type::Txt
            } else if string_is(&name, "afk_total") {
                Type::AfkTotal
            } else {
                Type::Named(name)
            };
            Ok((t, q))
        },
        Err(e) => Err(e),
    }
}

fn bin(op: BinOp, l: Expr, r: Expr) -> (e: Expr)
    ensures
        e@ == bin_v(op, l@, r@),
{
    let line = l.line;
    let col = l.col;
    Expr { kind: ExprKind::Binary(op, Box::new(l), Box::new(r)), line, col }
}

fn expr_x(ts: &[Spanned], p: usize) -> (r: Result<(Expr, usize), ParseError>)
    requires
        p <= ts.len(),
        ts.len() < usize::MAX,
    ensures
        ok_e(r, expr_s(tv(ts@), p as int)),
        r matches Ok((_, q)) ==> p < q <= ts.len(),
    decreases ts.len() + 1 - p, 20int,
{
    or_x(ts, p)
}

fn or_x(ts: &[Spanned], p: usize) -> (r: Result<(Expr, usize), ParseError>)
    requires
        p <= ts.len(),
        ts.len() < usize::MAX,
    ensures
        ok_e(r, or_s(tv(ts@), p as int)),
        r matches Ok((_, q)) ==> p < q <= ts.len(),
    decreases ts.len() + 1 - p, 19int,
{
    let ghost t = tv(ts@);
    let (mut lhs, mut q) = match and_x(ts, p) {
        Ok(x) => x,
        Err(e) => return Err(e),
    };
    while at(ts, q, &Token::Ou)
        invariant
            p < q <= ts.len(),
            ts.len() < usize::MAX,
            t == tv(ts@),
            or_s(t, p as int) == or_rest_s(t, q as int, lhs@),
        decreases ts.len() - q,
    {
        match and_x(ts, q + 1) {
            Ok((rhs, q2)) => {
                lhs = bin(BinOp::Or, lhs, rhs);
                q = q2;
            },
            Err(e) => return Err(e),
        }
    }
    Ok((lhs, q))
}

fn and_x(ts: &[Spanned], p: usize) -> (r: Result<(Expr, usize), ParseError>)
    requires
        p <= ts.len(),
        ts.len() < usize::MAX,
    ensures
        ok_e(r, and_s(tv(ts@), p as int)),
        r matches Ok((_, q)) ==> p < q <= ts.len(),
    decreases ts.len() + 1 - p, 18int,
{
    let ghost t = tv(ts@);
    let (mut lhs, mut q) = match level_x(ts, p, 0) {
        Ok(x) => x,
        Err(e) => return Err(e),
    };
    while at(ts, q, &Token::Et)
        invariant
            p < q <= ts.len(),
            ts.len() < usize::MAX,
            t == tv(ts@),
            and_s(t, p as int) == and_rest_s(t, q as int, lhs@),
        decreases ts.len() - q,
    {
        match level_x(ts, q + 1, 0) {
            Ok((rhs, q2)) => {
                lhs = bin(BinOp::And, lhs, rhs);
                q = q2;
            },
            Err(e) => return Err(e),
        }
    }
    Ok((lhs, q))
}

fn op_x(ts: &[Spanned], p: usize, level: u8) -> (r: Option<BinOp>)
    ensures
        r == op_at(tv(ts@), p as int, level as int),
{
    if p >= ts.len() {
        return None;
    }
    let t = &ts[p].tok;
    if level == 0 {
        match t {
            Token::Lt => Some(BinOp::Lt),
            Token::Le => Some(BinOp::Le),
            Token::Gt => Some(BinOp::Gt),
            Token::Ge => Some(BinOp::Ge),
            Token::EqEq => Some(BinOp::Eq),
            Token::NotEq => Some(BinOp::Ne),
            _ => None,
        }
    } else if level == 1 {
        match t {
            Token::Plus => Some(BinOp::Add),
            Token::Minus => Some(BinOp::Sub),
            _ => None,
        }
    } else {
        match t {
            Token::Star => Some(BinOp::Mul),
            Token::Slash => Some(BinOp::Div),
            _ => None,
        }
    }
}

fn level_x(ts: &[Spanned], p: usize, level: u8) -> (r: Result<(Expr, usize), ParseError>)
    requires
        p <= ts.len(),
        ts.len() < usize::MAX,
        level <= 3,
    ensures
        ok_e(r, level_s(tv(ts@), p as int, level as int)),
        r matches Ok((_, q)) ==> p < q <= ts.len(),
    decreases ts.len() + 1 - p, 17 - level,
{
    let ghost t = tv(ts@);
    if level == 3 {
        return unary_x(ts, p);
    }
    let (mut lhs, mut q) = match level_x(ts, p, level + 1) {
        Ok(x) => x,
        Err(e) => return Err(e),
    };
    loop
        invariant
            p < q <= ts.len(),
            ts.len() < usize::MAX,
            level < 3,
            t == tv(ts@),
            level_s(t, p as int, level as int) == level_rest_s(t, q as int, lhs@, level as int),
        decreases ts.len() - q,
    {
        match op_x(ts, q, level) {
            Some(op) => match level_x(ts, q + 1, level + 1) {
                Ok((rhs, q2)) => {
                    lhs = bin(op, lhs, rhs);
                    q = q2;
                },
                Err(e) => return Err(e),
            },
            None => return Ok((lhs, q)),
        }
    }
}

fn unary_x(ts: &[Spanned], p: usize) -> (r: Result<(Expr, usize), ParseError>)
    requires
        p <= ts.len(),
        ts.len() < usize::MAX,
    ensures
        ok_e(r, unary_s(tv(ts@), p as int)),
        r matches Ok((_, q)) ==> p < q <= ts.len(),
    decreases ts.len() + 1 - p, 13int,
{
    let not = at(ts, p, &Token::Pas);
    if not || at(ts, p, &Token::Minus) {
        let (line, col) = here_x(ts, p);
        let op = if not { UnOp::Not } else { UnOp::Neg };
        match unary_x(ts, p + 1) {
            Ok((e, q)) => Ok((Expr { kind: ExprKind::Unary(op, Box::new(e)), line, col }, q)),
            Err(err) => Err(err),
        }
    } else {
        primary_x(ts, p)
    }
}

fn struct_ahead_x(ts: &[Spanned], p: usize) -> (r: bool)
    requires
        p <= ts.len(),
        ts.len() < usize::MAX,
    ensures
        r == struct_ahead(tv(ts@), p as int),
{
    if ts.len() < 4 || p > ts.len() - 4 {
        return false;
    }
    at(ts, p + 1, &Token::LBrace) && (match &ts[p + 2].tok {
        Token::Ident(_) => true,
        _ => false,
    }) && at(ts, p + 3, &Token::Colon)
}

fn primary_x(ts: &[Spanned], p: usize) -> (r: Result<(Expr, usize), ParseError>)
    requires
        p <= ts.len(),
        ts.len() < usize::MAX,
    ensures
        ok_e(r, primary_s(tv(ts@), p as int)),
        r matches Ok((_, q)) ==> p < q <= ts.len(),
    decreases ts.len() + 1 - p, 12int,
{
    if p >= ts.len() {
        return Err(fail(ts, p, "expression attendue"));
    }
    let (line, col) = here_x(ts, p);
    let kind = match &ts[p].tok {
        Token::Int(n) => ExprKind::Int(*n),
        Token::Str(s) => ExprKind::Str(s.clone()),
        Token::Legit => ExprKind::Bool(true),
        Token::Cheat => ExprKind::Bool(false),
        Token::Pa => ExprKind::Pa,
        Token::Pm => ExprKind::Pm,
        Token::Suspicion => ExprKind::Suspicion,
        Token::LParen => {
            let (e, q) = match expr_x(ts, p + 1) {
                Ok(x) => x,
                Err(err) => return Err(err),
            };
            return match expect_x(ts, q, &Token::RParen, "attendu « ) »") {
                Ok(q2) => Ok((e, q2)),
                Err(err) => Err(err),
            };
        },
        Token::Ident(name) => {
            let name = name.clone();
            if at(ts, p + 1, &Token::LParen) {
                return match args_x(ts, p + 1) {
                    Ok((args, q)) => Ok((Expr { kind: ExprKind::Call(name, args), line, col }, q)),
                    Err(e) => Err(e),
                };
            } else if struct_ahead_x(ts, p) {
                let (fields, q) = match fields_rest_x(ts, p + 2) {
                    Ok(x) => x,
                    Err(e) => return Err(e),
                };
                return match expect_x(ts, q, &Token::RBrace, "attendu « } »") {
                    Ok(q2) => Ok((Expr { kind: ExprKind::Struct(name, fields), line, col }, q2)),
                    Err(e) => Err(e),
                };
            } else if at(ts, p + 1, &Token::Dot) {
                return match ident_x(ts, p + 2) {
                    Ok((member, q)) => Ok((Expr { kind: ExprKind::Path(name, member), line, col }, q)),
                    Err(e) => Err(e),
                };
            } else {
                ExprKind::Var(name)
            }
        },
        _ => return Err(fail(ts, p, "expression attendue")),
    };
    Ok((Expr { kind, line, col }, p + 1))
}

fn args_x(ts: &[Spanned], p: usize) -> (r: Result<(Vec<Expr>, usize), ParseError>)
    requires
        p <= ts.len(),
        ts.len() < usize::MAX,
    ensures
        ok_es(r, args_s(tv(ts@), p as int)),
        r matches Ok((_, q)) ==> p < q <= ts.len(),
    decreases ts.len() + 1 - p, 11int,
{
    let q = match expect_x(ts, p, &Token::LParen, "attendu « ( »") {
        Ok(q) => q,
        Err(e) => return Err(e),
    };
    if at(ts, q, &Token::RParen) {
        let v: Vec<Expr> = Vec::new();
        proof {
            assert(exprs_v(v@) =~= Seq::<ExprV>::empty());
        }
        return Ok((v, q + 1));
    }
    let (args, q2) = match args_rest_x(ts, q) {
        Ok(x) => x,
        Err(e) => return Err(e),
    };
    match expect_x(ts, q2, &Token::RParen, "attendu « ) »") {
        Ok(q3) => Ok((args, q3)),
        Err(e) => Err(e),
    }
}

fn args_rest_x(ts: &[Spanned], p: usize) -> (r: Result<(Vec<Expr>, usize), ParseError>)
    requires
        p <= ts.len(),
        ts.len() < usize::MAX,
    ensures
        ok_es(r, args_rest_s(tv(ts@), p as int, Seq::empty())),
        r matches Ok((_, q)) ==> p < q <= ts.len(),
    decreases ts.len() + 1 - p, 21int,
{
    let ghost t = tv(ts@);
    let mut acc: Vec<Expr> = Vec::new();
    let mut q = p;
    proof {
        assert(exprs_v(acc@) =~= Seq::<ExprV>::empty());
    }
    loop
        invariant
            p <= q <= ts.len(),
            ts.len() < usize::MAX,
            t == tv(ts@),
            args_rest_s(t, p as int, Seq::empty()) == args_rest_s(t, q as int, exprs_v(acc@)),
        decreases ts.len() - q,
    {
        match expr_x(ts, q) {
            Ok((e, q2)) => {
                proof {
                    lemma_exprs_push(acc@, e);
                }
                acc.push(e);
                if at(ts, q2, &Token::Comma) {
                    q = q2 + 1;
                } else {
                    return Ok((acc, q2));
                }
            },
            Err(err) => return Err(err),
        }
    }
}

fn fields_rest_x(ts: &[Spanned], p: usize) -> (r: Result<(Vec<FieldInit>, usize), ParseError>)
    requires
        p <= ts.len(),
        ts.len() < usize::MAX,
    ensures
        ok_fs(r, fields_rest_s(tv(ts@), p as int, Seq::empty())),
        r matches Ok((_, q)) ==> p < q <= ts.len(),
    decreases ts.len() + 1 - p, 21int,
{
    let ghost t = tv(ts@);
    let mut acc: Vec<FieldInit> = Vec::new();
    let mut q = p;
    proof {
        assert(fields_init_v(acc@) =~= Seq::<(Seq<char>, ExprV)>::empty());
    }
    loop
        invariant
            p <= q <= ts.len(),
            ts.len() < usize::MAX,
            t == tv(ts@),
            fields_rest_s(t, p as int, Seq::empty()) == fields_rest_s(t, q as int, fields_init_v(acc@)),
        decreases ts.len() - q,
    {
        let (name, q1) = match ident_x(ts, q) {
            Ok(x) => x,
            Err(e) => return Err(e),
        };
        let q2 = match expect_x(ts, q1, &Token::Colon, "attendu « : »") {
            Ok(x) => x,
            Err(e) => return Err(e),
        };
        match expr_x(ts, q2) {
            Ok((e, q3)) => {
                let f = FieldInit { name, value: e };
                proof {
                    lemma_fields_push(acc@, f);
                }
                acc.push(f);
                if at(ts, q3, &Token::Comma) {
                    q = q3 + 1;
                } else {
                    return Ok((acc, q3));
                }
            },
            Err(err) => return Err(err),
        }
    }
}

fn block_x(ts: &[Spanned], p: usize) -> (r: Result<(Block, usize), ParseError>)
    requires
        p <= ts.len(),
        ts.len() < usize::MAX,
    ensures
        ok_b(r, block_s(tv(ts@), p as int)),
        r matches Ok((_, q)) ==> p < q <= ts.len(),
    decreases ts.len() + 1 - p, 30int,
{
    let ghost t = tv(ts@);
    let q0 = match expect_x(ts, p, &Token::LBrace, "attendu « { »") {
        Ok(q) => q,
        Err(e) => return Err(e),
    };
    let mut acc: Vec<Stmt> = Vec::new();
    let mut q = q0;
    proof {
        assert(stmts_v(acc@) =~= Seq::<StmtV>::empty());
    }
    loop
        invariant
            p < q <= ts.len(),
            ts.len() < usize::MAX,
            t == tv(ts@),
            block_s(t, p as int) == stmts_s(t, q as int, stmts_v(acc@)),
        decreases ts.len() - q,
    {
        if at(ts, q, &Token::RBrace) {
            return Ok((Block { stmts: acc }, q + 1));
        }
        if q >= ts.len() {
            return Err(fail(ts, q, "« } » manquant"));
        }
        match stmt_x(ts, q) {
            Ok((st, q2)) => {
                proof {
                    lemma_stmts_push(acc@, st);
                }
                acc.push(st);
                q = q2;
            },
            Err(e) => return Err(e),
        }
    }
}

fn stmt_x(ts: &[Spanned], p: usize) -> (r: Result<(Stmt, usize), ParseError>)
    requires
        p <= ts.len(),
        ts.len() < usize::MAX,
    ensures
        ok_st(r, stmt_s(tv(ts@), p as int)),
        r matches Ok((_, q)) ==> p < q <= ts.len(),
    decreases ts.len() + 1 - p, 28int,
{
    if p >= ts.len() {
        return Err(fail(ts, p, "instruction attendue"));
    }
    match &ts[p].tok {
        Token::Loot | Token::Ban => decl_x(ts, p),
        Token::Tour => match block_x(ts, p + 1) {
            Ok((b, q)) => Ok((Stmt::Tour(b), q)),
            Err(e) => Err(e),
        },
        Token::Passer => Ok((Stmt::Passer, p + 1)),
        Token::Farm => {
            let (cond, q) = match expr_x(ts, p + 1) {
                Ok(x) => x,
                Err(e) => return Err(e),
            };
            match block_x(ts, q) {
                Ok((body, q2)) => Ok((Stmt::Farm { cond, body }, q2)),
                Err(e) => Err(e),
            }
        },
        Token::Grind => {
            let (var, q) = match ident_x(ts, p + 1) {
                Ok(x) => x,
                Err(e) => return Err(e),
            };
            if !word_x(ts, q, "de") {
                return Err(fail(ts, q, "attendu « de »"));
            }
            let (from, q1) = match expr_x(ts, q + 1) {
                Ok(x) => x,
                Err(e) => return Err(e),
            };
            if !word_x(ts, q1, "a") {
                return Err(fail(ts, q1, "attendu « a »"));
            }
            let (to, q2) = match expr_x(ts, q1 + 1) {
                Ok(x) => x,
                Err(e) => return Err(e),
            };
            match block_x(ts, q2) {
                Ok((body, q3)) => Ok((Stmt::Grind { var, from, to, body }, q3)),
                Err(e) => Err(e),
            }
        },
        Token::Detect => {
            let (cond, q) = match expr_x(ts, p + 1) {
                Ok(x) => x,
                Err(e) => return Err(e),
            };
            let (then_branch, q2) = match block_x(ts, q) {
                Ok(x) => x,
                Err(e) => return Err(e),
            };
            if at(ts, q2, &Token::Sinon) {
                match block_x(ts, q2 + 1) {
                    Ok((eb, q3)) => Ok((Stmt::Detect { cond, then_branch, else_branch: Some(eb) }, q3)),
                    Err(e) => Err(e),
                }
            } else {
                Ok((Stmt::Detect { cond, then_branch, else_branch: None }, q2))
            }
        },
        Token::Gg => {
            if starts_expr_x(ts, p + 1) {
                match expr_x(ts, p + 1) {
                    Ok((e, q)) => Ok((Stmt::Gg(Some(e)), q)),
                    Err(err) => Err(err),
                }
            } else {
                Ok((Stmt::Gg(None), p + 1))
            }
        },
        Token::Up => match expr_x(ts, p + 1) {
            Ok((e, q)) => Ok((Stmt::Up(e), q)),
            Err(err) => Err(err),
        },
        Token::Afk => match expr_x(ts, p + 1) {
            Ok((e, q)) => Ok((Stmt::Afk(e), q)),
            Err(err) => Err(err),
        },
        Token::Ident(name) => {
            match assign_op_x(ts, p + 1) {
                Some(op) => {
                    let (line, col) = here_x(ts, p);
                    let name = name.clone();
                    match expr_x(ts, p + 2) {
                        Ok((value, q)) => Ok((Stmt::Assign { name, op, value, line, col }, q)),
                        Err(e) => Err(e),
                    }
                },
                None => match expr_x(ts, p) {
                    Ok((e, q)) => Ok((Stmt::Expr(e), q)),
                    Err(err) => Err(err),
                },
            }
        },
        _ => match expr_x(ts, p) {
            Ok((e, q)) => Ok((Stmt::Expr(e), q)),
            Err(err) => Err(err),
        },
    }
}

fn assign_op_x(ts: &[Spanned], p: usize) -> (r: Option<AssignOp>)
    ensures
        r == assign_op_at(tv(ts@), p as int),
{
    if p >= ts.len() {
        return None;
    }
    match &ts[p].tok {
        Token::Eq => Some(AssignOp::Replace),
        Token::PlusEq => Some(AssignOp::Add),
        Token::MinusEq => Some(AssignOp::Sub),
        _ => None,
    }
}

fn starts_expr_x(ts: &[Spanned], p: usize) -> (r: bool)
    ensures
        r == starts_expr_s(tv(ts@), p as int),
{
    if p >= ts.len() {
        return false;
    }
    match &ts[p].tok {
        Token::Int(_) | Token::Str(_) | Token::Ident(_) | Token::Legit | Token::Cheat
        | Token::Pa | Token::Pm | Token::Suspicion | Token::LParen | Token::Pas
        | Token::Minus => true,
        _ => false,
    }
}

fn decl_x(ts: &[Spanned], p: usize) -> (r: Result<(Stmt, usize), ParseError>)
    requires
        p < ts.len(),
        ts.len() < usize::MAX,
    ensures
        ok_st(r, decl_s(tv(ts@), p as int)),
        r matches Ok((_, q)) ==> p < q <= ts.len(),
    decreases ts.len() + 1 - p, 27int,
{
    let is_const = at(ts, p, &Token::Ban);
    let (name, q) = match ident_x(ts, p + 1) {
        Ok(x) => x,
        Err(e) => return Err(e),
    };
    let (ty, q1) = if at(ts, q, &Token::Colon) {
        match type_x(ts, q + 1) {
            Ok((t, q1)) => (Some(t), q1),
            Err(e) => return Err(e),
        }
    } else {
        (None, q)
    };
    let q2 = match expect_x(ts, q1, &Token::Eq, "attendu « = »") {
        Ok(q2) => q2,
        Err(e) => return Err(e),
    };
    match expr_x(ts, q2) {
        Ok((value, q3)) => Ok((
            if is_const { Stmt::Ban { name, ty, value } } else { Stmt::Loot { name, ty, value } },
            q3,
        )),
        Err(e) => Err(e),
    }
}

fn pragmas_x(ts: &[Spanned]) -> (r: Result<(Vec<Pragma>, usize), ParseError>)
    requires
        ts.len() < usize::MAX,
    ensures
        match r {
            Ok((v, q)) => pragmas_s(tv(ts@), 0, Seq::empty())
                == Ok::<(Seq<PragmaV>, int), ErrV>((v@.map_values(|x: Pragma| x@), q as int)) && q <= ts.len(),
            Err(e) => pragmas_s(tv(ts@), 0, Seq::empty()) == Err::<(Seq<PragmaV>, int), ErrV>(e@),
        },
{
    let ghost t = tv(ts@);
    let mut acc: Vec<Pragma> = Vec::new();
    let mut q: usize = 0;
    proof {
        assert(acc@.map_values(|x: Pragma| x@) =~= Seq::<PragmaV>::empty());
    }
    while at(ts, q, &Token::Hash)
        invariant
            q <= ts.len(),
            ts.len() < usize::MAX,
            t == tv(ts@),
            pragmas_s(t, 0, Seq::empty()) == pragmas_s(t, q as int, acc@.map_values(|x: Pragma| x@)),
        decreases ts.len() - q,
    {
        let (line, col) = here_x(ts, q);
        let (key, q1) = match ident_x(ts, q + 1) {
            Ok(x) => x,
            Err(e) => return Err(e),
        };
        let (value, q2) = match int_x(ts, q1) {
            Ok(x) => x,
            Err(e) => return Err(e),
        };
        let pr = Pragma { key, value, line, col };
        let ghost before = acc@.map_values(|x: Pragma| x@);
        acc.push(pr);
        proof {
            assert(acc@.map_values(|x: Pragma| x@) =~= before.push(pr@));
        }
        q = q2;
    }
    Ok((acc, q))
}

fn params_x(ts: &[Spanned], p: usize) -> (r: Result<(Vec<Param>, usize), ParseError>)
    requires
        p <= ts.len(),
        ts.len() < usize::MAX,
    ensures
        match r {
            Ok((v, q)) => params_s(tv(ts@), p as int, Seq::empty())
                == Ok::<(Seq<ParamV>, int), ErrV>((v@.map_values(|x: Param| x@), q as int)) && p < q <= ts.len(),
            Err(e) => params_s(tv(ts@), p as int, Seq::empty()) == Err::<(Seq<ParamV>, int), ErrV>(e@),
        },
{
    let ghost t = tv(ts@);
    let mut acc: Vec<Param> = Vec::new();
    let mut q = p;
    proof {
        assert(acc@.map_values(|x: Param| x@) =~= Seq::<ParamV>::empty());
    }
    loop
        invariant
            p <= q <= ts.len(),
            ts.len() < usize::MAX,
            t == tv(ts@),
            params_s(t, p as int, Seq::empty()) == params_s(t, q as int, acc@.map_values(|x: Param| x@)),
        decreases ts.len() - q,
    {
        let (name, q1) = match ident_x(ts, q) {
            Ok(x) => x,
            Err(e) => return Err(e),
        };
        let q2 = match expect_x(ts, q1, &Token::Colon, "attendu « : »") {
            Ok(x) => x,
            Err(e) => return Err(e),
        };
        let (ty, q3) = match type_x(ts, q2) {
            Ok(x) => x,
            Err(e) => return Err(e),
        };
        let pa = Param { name, ty };
        let ghost before = acc@.map_values(|x: Param| x@);
        acc.push(pa);
        proof {
            assert(acc@.map_values(|x: Param| x@) =~= before.push(pa@));
        }
        if at(ts, q3, &Token::Comma) {
            q = q3 + 1;
        } else {
            return Ok((acc, q3));
        }
    }
}

fn suffixes_x(ts: &[Spanned], p: usize) -> (r: Result<(Option<i64>, Option<i64>, usize), ParseError>)
    requires
        p <= ts.len(),
        ts.len() < usize::MAX,
    ensures
        match r {
            Ok((c, d, q)) => suffixes_s(tv(ts@), p as int, None, None)
                == Ok::<(Option<i64>, Option<i64>, int), ErrV>((c, d, q as int)) && p <= q <= ts.len(),
            Err(e) => suffixes_s(tv(ts@), p as int, None, None) == Err::<(Option<i64>, Option<i64>, int), ErrV>(e@),
        },
{
    let ghost t = tv(ts@);
    let mut cost: Option<i64> = None;
    let mut cd: Option<i64> = None;
    let mut q = p;
    while at(ts, q, &Token::Comma)
        invariant
            p <= q <= ts.len(),
            ts.len() < usize::MAX,
            t == tv(ts@),
            suffixes_s(t, p as int, None, None) == suffixes_s(t, q as int, cost, cd),
        decreases ts.len() - q,
    {
        if at(ts, q + 1, &Token::Coute) {
            let (n, q1) = match int_x(ts, q + 2) {
                Ok(x) => x,
                Err(e) => return Err(e),
            };
            let q2 = match expect_x(ts, q1, &Token::Pa, "attendu « pa »") {
                Ok(x) => x,
                Err(e) => return Err(e),
            };
            cost = Some(n);
            q = q2;
        } else if at(ts, q + 1, &Token::Cd) {
            let (n, q1) = match int_x(ts, q + 2) {
                Ok(x) => x,
                Err(e) => return Err(e),
            };
            cd = Some(n);
            q = q1;
        } else {
            return Err(fail(ts, q + 1, "attendu « coute » ou « cd » après « , »"));
        }
    }
    Ok((cost, cd, q))
}

fn bot_x(ts: &[Spanned], p: usize) -> (r: Result<(Bot, usize), ParseError>)
    requires
        p <= ts.len(),
        ts.len() < usize::MAX,
    ensures
        match r {
            Ok((b, q)) => bot_s(tv(ts@), p as int) == Ok::<(BotV, int), ErrV>((b@, q as int)) && p < q <= ts.len(),
            Err(e) => bot_s(tv(ts@), p as int) == Err::<(BotV, int), ErrV>(e@),
        },
{
    let (line, col) = here_x(ts, p);
    let q0 = match expect_x(ts, p, &Token::Bot, "attendu « bot »") {
        Ok(x) => x,
        Err(e) => return Err(e),
    };
    let (name, q) = match ident_x(ts, q0) {
        Ok(x) => x,
        Err(e) => return Err(e),
    };
    let q1 = match expect_x(ts, q, &Token::LParen, "attendu « ( »") {
        Ok(x) => x,
        Err(e) => return Err(e),
    };
    let (params, q2) = if at(ts, q1, &Token::RParen) {
        let v: Vec<Param> = Vec::new();
        proof {
            assert(v@.map_values(|x: Param| x@) =~= Seq::<ParamV>::empty());
        }
        (v, q1)
    } else {
        match params_x(ts, q1) {
            Ok(x) => x,
            Err(e) => return Err(e),
        }
    };
    let q3 = match expect_x(ts, q2, &Token::RParen, "attendu « ) »") {
        Ok(x) => x,
        Err(e) => return Err(e),
    };
    let (ret, q4) = if at(ts, q3, &Token::Colon) {
        match type_x(ts, q3 + 1) {
            Ok((t, q4)) => (Some(t), q4),
            Err(e) => return Err(e),
        }
    } else {
        (None, q3)
    };
    let (cost_pa, cd, q5) = match suffixes_x(ts, q4) {
        Ok(x) => x,
        Err(e) => return Err(e),
    };
    match block_x(ts, q5) {
        Ok((body, q6)) => Ok((Bot { name, params, ret, cost_pa, cd, body, line, col }, q6)),
        Err(e) => Err(e),
    }
}

fn pin_x(ts: &[Spanned], p: usize) -> (r: Result<(Option<i64>, usize), ParseError>)
    requires
        p <= ts.len(),
        ts.len() < usize::MAX,
    ensures
        match r {
            Ok((pin, q)) => pin_s(tv(ts@), p as int) == Ok::<(Option<i64>, int), ErrV>((pin, q as int)) && p <= q <= ts.len(),
            Err(e) => pin_s(tv(ts@), p as int) == Err::<(Option<i64>, int), ErrV>(e@),
        },
{
    if at(ts, p, &Token::At) {
        match int_x(ts, p + 1) {
            Ok((n, q)) => Ok((Some(n), q)),
            Err(e) => Err(e),
        }
    } else {
        Ok((None, p))
    }
}

fn variants_x(ts: &[Spanned], p: usize) -> (r: Result<(Vec<Variant>, usize), ParseError>)
    requires
        p <= ts.len(),
        ts.len() < usize::MAX,
    ensures
        match r {
            Ok((v, q)) => variants_s(tv(ts@), p as int, Seq::empty())
                == Ok::<(Seq<VariantV>, int), ErrV>((v@.map_values(|x: Variant| x@), q as int)) && p <= q <= ts.len(),
            Err(e) => variants_s(tv(ts@), p as int, Seq::empty()) == Err::<(Seq<VariantV>, int), ErrV>(e@),
        },
{
    let ghost t = tv(ts@);
    let mut acc: Vec<Variant> = Vec::new();
    let mut q = p;
    proof {
        assert(acc@.map_values(|x: Variant| x@) =~= Seq::<VariantV>::empty());
    }
    loop
        invariant
            p <= q <= ts.len(),
            ts.len() < usize::MAX,
            t == tv(ts@),
            variants_s(t, p as int, Seq::empty()) == variants_s(t, q as int, acc@.map_values(|x: Variant| x@)),
        decreases ts.len() - q,
    {
        if at(ts, q, &Token::RBrace) {
            return Ok((acc, q));
        }
        if q >= ts.len() {
            return Err(fail(ts, q, "« } » manquant"));
        }
        let (pin, q1) = match pin_x(ts, q) {
            Ok(x) => x,
            Err(e) => return Err(e),
        };
        let (name, q2) = match ident_x(ts, q1) {
            Ok(x) => x,
            Err(e) => return Err(e),
        };
        let v = Variant { name, pin };
        let ghost before = acc@.map_values(|x: Variant| x@);
        acc.push(v);
        proof {
            assert(acc@.map_values(|x: Variant| x@) =~= before.push(v@));
        }
        if at(ts, q2, &Token::Comma) {
            q = q2 + 1;
        } else {
            return Ok((acc, q2));
        }
    }
}

fn fields_x(ts: &[Spanned], p: usize) -> (r: Result<(Vec<Field>, usize), ParseError>)
    requires
        p <= ts.len(),
        ts.len() < usize::MAX,
    ensures
        match r {
            Ok((v, q)) => fields_s(tv(ts@), p as int, Seq::empty())
                == Ok::<(Seq<FieldV>, int), ErrV>((v@.map_values(|x: Field| x@), q as int)) && p <= q <= ts.len(),
            Err(e) => fields_s(tv(ts@), p as int, Seq::empty()) == Err::<(Seq<FieldV>, int), ErrV>(e@),
        },
{
    let ghost t = tv(ts@);
    let mut acc: Vec<Field> = Vec::new();
    let mut q = p;
    proof {
        assert(acc@.map_values(|x: Field| x@) =~= Seq::<FieldV>::empty());
    }
    loop
        invariant
            p <= q <= ts.len(),
            ts.len() < usize::MAX,
            t == tv(ts@),
            fields_s(t, p as int, Seq::empty()) == fields_s(t, q as int, acc@.map_values(|x: Field| x@)),
        decreases ts.len() - q,
    {
        if at(ts, q, &Token::RBrace) {
            return Ok((acc, q));
        }
        if q >= ts.len() {
            return Err(fail(ts, q, "« } » manquant"));
        }
        let (pin, q1) = match pin_x(ts, q) {
            Ok(x) => x,
            Err(e) => return Err(e),
        };
        let (name, q2) = match ident_x(ts, q1) {
            Ok(x) => x,
            Err(e) => return Err(e),
        };
        let q3 = match expect_x(ts, q2, &Token::Colon, "attendu « : »") {
            Ok(x) => x,
            Err(e) => return Err(e),
        };
        let (ty, q4) = match type_x(ts, q3) {
            Ok(x) => x,
            Err(e) => return Err(e),
        };
        let f = Field { name, ty, pin };
        let ghost before = acc@.map_values(|x: Field| x@);
        acc.push(f);
        proof {
            assert(acc@.map_values(|x: Field| x@) =~= before.push(f@));
        }
        if at(ts, q4, &Token::Comma) {
            q = q4 + 1;
        } else {
            return Ok((acc, q4));
        }
    }
}

fn decl_type_x(ts: &[Spanned], p: usize, is_perso: bool) -> (r: Result<(Item, usize), ParseError>)
    requires
        p < ts.len(),
        ts.len() < usize::MAX,
    ensures
        match r {
            Ok((it, q)) => decl_type_s(tv(ts@), p as int, is_perso) == Ok::<(ItemV, int), ErrV>((it@, q as int)) && p < q <= ts.len(),
            Err(e) => decl_type_s(tv(ts@), p as int, is_perso) == Err::<(ItemV, int), ErrV>(e@),
        },
{
    let (line, col) = here_x(ts, p);
    let (name, q) = match ident_x(ts, p + 1) {
        Ok(x) => x,
        Err(e) => return Err(e),
    };
    let q1 = match expect_x(ts, q, &Token::LBrace, "attendu « { »") {
        Ok(x) => x,
        Err(e) => return Err(e),
    };
    if is_perso {
        let (fields, q2) = match fields_x(ts, q1) {
            Ok(x) => x,
            Err(e) => return Err(e),
        };
        match expect_x(ts, q2, &Token::RBrace, "attendu « } »") {
            Ok(q3) => Ok((Item::Perso(Perso { name, fields, line, col }), q3)),
            Err(e) => Err(e),
        }
    } else {
        let (variants, q2) = match variants_x(ts, q1) {
            Ok(x) => x,
            Err(e) => return Err(e),
        };
        match expect_x(ts, q2, &Token::RBrace, "attendu « } »") {
            Ok(q3) => Ok((Item::Pano(Pano { name, variants, line, col }), q3)),
            Err(e) => Err(e),
        }
    }
}

fn item_x(ts: &[Spanned], p: usize) -> (r: Result<(Item, usize), ParseError>)
    requires
        p < ts.len(),
        ts.len() < usize::MAX,
    ensures
        match r {
            Ok((it, q)) => item_s(tv(ts@), p as int) == Ok::<(ItemV, int), ErrV>((it@, q as int)) && p < q <= ts.len(),
            Err(e) => item_s(tv(ts@), p as int) == Err::<(ItemV, int), ErrV>(e@),
        },
{
    match &ts[p].tok {
        Token::Serveur => match ident_x(ts, p + 1) {
            Ok((name, q)) => Ok((Item::Serveur(name), q)),
            Err(e) => Err(e),
        },
        Token::Bot => match bot_x(ts, p) {
            Ok((b, q)) => Ok((Item::Bot(b), q)),
            Err(e) => Err(e),
        },
        Token::Connexion => match block_x(ts, p + 1) {
            Ok((b, q)) => Ok((Item::Connexion(b), q)),
            Err(e) => Err(e),
        },
        Token::Ident(w) => {
            if string_is(w, "pano") {
                decl_type_x(ts, p, false)
            } else if string_is(w, "perso") {
                decl_type_x(ts, p, true)
            } else {
                Err(fail(ts, p, "attendu « serveur », « bot », « pano », « perso » ou « connexion »"))
            }
        },
        _ => Err(fail(ts, p, "attendu « serveur », « bot », « pano », « perso » ou « connexion »")),
    }
}

fn program_x(ts: &[Spanned]) -> (r: Result<Program, ParseError>)
    requires
        ts.len() < usize::MAX,
    ensures
        match r {
            Ok(prog) => program_s(tv(ts@)) == Ok::<ProgramV, ErrV>(prog@),
            Err(e) => program_s(tv(ts@)) == Err::<ProgramV, ErrV>(e@),
        },
{
    let ghost t = tv(ts@);
    let (pragmas, q0) = match pragmas_x(ts) {
        Ok(x) => x,
        Err(e) => return Err(e),
    };
    let mut items: Vec<Item> = Vec::new();
    let mut q = q0;
    proof {
        assert(items@.map_values(|x: Item| x@) =~= Seq::<ItemV>::empty());
    }
    while q < ts.len()
        invariant
            q0 <= q <= ts.len(),
            ts.len() < usize::MAX,
            t == tv(ts@),
            pragmas_s(t, 0, Seq::empty()) == Ok::<(Seq<PragmaV>, int), ErrV>((pragmas@.map_values(|x: Pragma| x@), q0 as int)),
            items_s(t, q0 as int, Seq::empty()) == items_s(t, q as int, items@.map_values(|x: Item| x@)),
        decreases ts.len() - q,
    {
        match item_x(ts, q) {
            Ok((it, q2)) => {
                let ghost before = items@.map_values(|x: Item| x@);
                items.push(it);
                proof {
                    assert(items@.map_values(|x: Item| x@) =~= before.push(it@));
                }
                q = q2;
            },
            Err(e) => return Err(e),
        }
    }
    Ok(Program { pragmas, items })
}

proof fn lemma_lex_count(s: Seq<char>, i: int)
    requires
        0 <= i <= s.len(),
    ensures
        lex_from(s, i) matches Ok(ts) ==> ts.len() <= s.len() - i,
    decreases s.len() - i,
{
    let j = skip_trivia(s, i);
    crate::lexer::lemma_skip_trivia(s, i);
    if j < s.len() {
        crate::lexer::lemma_token_len(s, j);
        match token_spec(s, j) {
            Some((t, n)) => {
                lemma_lex_count(s, j + n);
            },
            None => {},
        }
    }
}

/// Parses a whole source into a [`Program`].
///
/// # Errors
/// A lexical error (`caractère invalide`) or a syntax error, with its position.
pub fn parse(src: &str) -> (r: Result<Program, ParseError>)
    requires
        src@.len() < u32::MAX,
    ensures
        match r {
            Ok(prog) => parse_spec(src@) == Ok::<ProgramV, ErrV>(prog@),
            Err(e) => parse_spec(src@) == Err::<ProgramV, ErrV>(e@),
        },
{
    let toks = match tokenize(src) {
        Ok(t) => t,
        Err(e) => {
            return Err(ParseError { msg: owned("caractère invalide"), line: e.line, col: e.col });
        },
    };
    proof {
        lemma_lex_count(src@, 0);
        assert(tv(toks@) == toks@.map_values(|x: Spanned| x@));
    }
    program_x(toks.as_slice())
}

} // verus!
