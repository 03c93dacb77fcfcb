//! Native back end: a program as textual LLVM IR that drives the runtime through its C
//! interface (`cdc_rt_*`). Every value is an `i64` (`flag` is 0 or 1); the mechanics (budget,
//! suspicion, cooldowns, draws) all live in the runtime, the generated code only orders them.
//!
//! The text is described by the `ir_*` functions below, which thread a generation state
//! (`GenV`): the text so far, the next fresh number, the scopes of variable slots, the mode
//! (`tour`, condition, entry point) and the string constants to emit at the end.

use vstd::prelude::*;
use vstd::utf8::encode_utf8;
use crate::ast::{
    block_size, expr_size, exprs_size, lemma_exprs_size_index, lemma_exprs_v, lemma_stmts_size_index, lemma_stmts_v, stmt_size,
    stmts_size, AssignOp, BinOp, Block, BlockV, Bot, BotV, Expr, ExprKind, ExprKindV, ExprV, Item, ItemV,
    ParamV, Program, ProgramV, Stmt, StmtV, UnOp, exprs_v, stmts_v,
};
use crate::interp::{find_connexion, pm_ids_after, pm_index, run_config, setup_error, tag_of, Ctx};
use crate::config::Config;
use crate::interp::{connexion_x, decls_fit, tag_get, tag_table, tags_v, tags_x};
use crate::sema::{cost_map, effective_costs, find_bot, find_bot_x, items_v, pragma_config_x, quoted, CostTable};
use crate::sema::quoted_x;
use crate::text::{decimal, digits_of, int_text, nat_text, owned, push_char, push_text, string_eq, string_is};

verus! {

// ------------------------------------------------------------------ model

/// Generation state.
pub struct GenV {
    /// Text emitted so far.
    pub code: Seq<char>,
    /// Next fresh number (temporaries `%tN`, slots `%vN`, labels `LN`).
    pub n: u64,
    /// Variable slots by scope, innermost last.
    pub scopes: Seq<Seq<(Seq<char>, u64)>>,
    pub in_tour: bool,
    /// Number of scopes open when the current `tour` began.
    pub tour_base: nat,
    /// Inside a condition: reads are free.
    pub perception: bool,
    /// Inside the entry point: `gg` leaves the program.
    pub in_main: bool,
    /// Variables reached from a `tour`, numbered in order of first reach.
    pub pm_ids: Seq<Seq<char>>,
    /// String constants, numbered in order.
    pub strs: Seq<Seq<char>>,
}

pub open spec fn next_n(n: u64) -> u64 {
    if n < u64::MAX { (n + 1) as u64 } else { n }
}

pub open spec fn emit(g: GenV, t: Seq<char>) -> GenV {
    GenV { code: g.code + t, ..g }
}

pub open spec fn bump(g: GenV) -> GenV {
    GenV { n: next_n(g.n), ..g }
}

/// An instruction line.
pub open spec fn line(g: GenV, t: Seq<char>) -> GenV {
    emit(g, "  "@ + t + "\n"@)
}

pub open spec fn tmp(k: u64) -> Seq<char> {
    "%t"@ + digits_of(k as nat)
}

pub open spec fn slot(k: u64) -> Seq<char> {
    "%v"@ + digits_of(k as nat)
}

pub open spec fn label(k: u64) -> Seq<char> {
    "L"@ + digits_of(k as nat)
}

/// Defines the next temporary as `rhs`; the temporary is the operand.
pub open spec fn def(g: GenV, rhs: Seq<char>) -> (GenV, Seq<char>) {
    (bump(emit(g, "  "@ + tmp(g.n) + " = "@ + rhs + "\n"@)), tmp(g.n))
}

pub open spec fn br(k: u64) -> Seq<char> {
    "br label %"@ + label(k)
}

pub open spec fn start(g: GenV, k: u64) -> GenV {
    emit(g, label(k) + ":\n"@)
}

pub open spec fn store(v: Seq<char>, k: u64) -> Seq<char> {
    "store i64 "@ + v + ", ptr "@ + slot(k)
}

/// Slot of the last binding of a name in a scope.
pub open spec fn find_in(s: Seq<(Seq<char>, u64)>, name: Seq<char>) -> Option<u64>
    decreases s.len(),
{
    if s.len() == 0 {
        None
    } else if s.last().0 == name {
        Some(s.last().1)
    } else {
        find_in(s.drop_last(), name)
    }
}

/// Slot of a variable and the index of its scope, innermost scope first.
pub open spec fn lookup_slot(sc: Seq<Seq<(Seq<char>, u64)>>, name: Seq<char>) -> Option<(u64, nat)>
    decreases sc.len(),
{
    if sc.len() == 0 {
        None
    } else {
        match find_in(sc.last(), name) {
            Some(k) => Some((k, (sc.len() - 1) as nat)),
            None => lookup_slot(sc.drop_last(), name),
        }
    }
}

/// A new slot for `name` in the innermost scope.
pub open spec fn alloca(g: GenV, name: Seq<char>) -> (GenV, u64) {
    let k = g.n;
    let sc = if g.scopes.len() == 0 {
        seq![seq![(name, k)]]
    } else {
        g.scopes.update(g.scopes.len() - 1, g.scopes.last().push((name, k)))
    };
    (bump(emit(GenV { scopes: sc, ..g }, "  "@ + slot(k) + " = alloca i64\n"@)), k)
}

/// Reads a variable: reaching one declared outside the current `tour` costs MP, except in a
/// condition.
pub open spec fn ir_read(g: GenV, name: Seq<char>) -> Result<(GenV, Seq<char>), Seq<char>> {
    match lookup_slot(g.scopes, name) {
        None => Err("variable indéfinie "@ + quoted(name)),
        Some((k, idx)) => {
            let g1 = if g.in_tour && !g.perception && idx < g.tour_base {
                line(GenV { pm_ids: pm_ids_after(g.pm_ids, name), ..g },
                    "call void @cdc_rt_pm_touch(ptr %rt, i64 "@ + digits_of(pm_index(g.pm_ids, name)) + ")"@)
            } else {
                g
            };
            Ok(def(g1, "load i64, ptr "@ + slot(k)))
        },
    }
}

/// A string constant and its arguments `ptr @sK, i64 LEN` (length in UTF-8 bytes).
pub open spec fn str_ref(g: GenV, s: Seq<char>) -> (GenV, Seq<char>) {
    (GenV { strs: g.strs.push(s), ..g },
        "ptr @s"@ + digits_of(g.strs.len()) + ", i64 "@ + digits_of(encode_utf8(s).len()))
}

pub open spec fn zext(g: GenV, c: Seq<char>) -> (GenV, Seq<char>) {
    def(g, "zext i1 "@ + c + " to i64"@)
}

/// A comparison as 0 or 1.
pub open spec fn compare(g: GenV, pred: Seq<char>, a: Seq<char>, b: Seq<char>) -> (GenV, Seq<char>) {
    let (g1, c) = def(g, "icmp "@ + pred + " i64 "@ + a + ", "@ + b);
    zext(g1, c)
}

/// Both operands read as truth values (`!= 0`), combined by `and` or `or`.
pub open spec fn logic(g: GenV, op: Seq<char>, a: Seq<char>, b: Seq<char>) -> (GenV, Seq<char>) {
    let (g1, x) = def(g, "icmp ne i64 "@ + a + ", 0"@);
    let (g2, y) = def(g1, "icmp ne i64 "@ + b + ", 0"@);
    let (g3, z) = def(g2, op + " i1 "@ + x + ", "@ + y);
    zext(g3, z)
}

pub open spec fn ir_binop(g: GenV, op: BinOp, a: Seq<char>, b: Seq<char>) -> (GenV, Seq<char>) {
    let ab = " i64 "@ + a + ", "@ + b;
    match op {
        BinOp::Add => def(g, "add"@ + ab),
        BinOp::Sub => def(g, "sub"@ + ab),
        BinOp::Mul => def(g, "mul"@ + ab),
        BinOp::Div => def(g, "sdiv"@ + ab),
        BinOp::Lt => compare(g, "slt"@, a, b),
        BinOp::Le => compare(g, "sle"@, a, b),
        BinOp::Gt => compare(g, "sgt"@, a, b),
        BinOp::Ge => compare(g, "sge"@, a, b),
        BinOp::Eq => compare(g, "eq"@, a, b),
        BinOp::Ne => compare(g, "ne"@, a, b),
        BinOp::And => logic(g, "and"@, a, b),
        BinOp::Or => logic(g, "or"@, a, b),
    }
}

/// What LLVM's `icmp` computes on two signed 64-bit integers for each predicate the
/// language uses (`eq`, `ne`, `slt`, `sle`, `sgt`, `sge`, as the LLVM reference defines
/// them); `None` for any other text.
pub open spec fn icmp_meaning(p: Seq<char>, x: int, y: int) -> Option<bool> {
    if p == "eq"@ {
        Some(x == y)
    } else if p == "ne"@ {
        Some(x != y)
    } else if p == "slt"@ {
        Some(x < y)
    } else if p == "sle"@ {
        Some(x <= y)
    } else if p == "sgt"@ {
        Some(x > y)
    } else if p == "sge"@ {
        Some(x >= y)
    } else {
        None
    }
}

/// Each comparison of the language compiles to one `icmp` whose predicate computes the
/// relation the operator names, on every pair of integers; the arithmetic operators
/// compile to `add`, `sub`, `mul` and the signed `sdiv`, and `et`/`ou` to `and`/`or` of
/// the operands' truth.
pub proof fn lemma_binop_instructions(g: GenV, op: BinOp, a: Seq<char>, b: Seq<char>)
    ensures
        op == BinOp::Lt || op == BinOp::Le || op == BinOp::Gt || op == BinOp::Ge || op == BinOp::Eq || op == BinOp::Ne
            ==> exists|p: Seq<char>| #[trigger] compare(g, p, a, b) == ir_binop(g, op, a, b)
                && forall|x: int, y: int| #[trigger] icmp_meaning(p, x, y) == Some(
                    if op == BinOp::Lt { x < y }
                    else if op == BinOp::Le { x <= y }
                    else if op == BinOp::Gt { x > y }
                    else if op == BinOp::Ge { x >= y }
                    else if op == BinOp::Eq { x == y }
                    else { x != y }),
        op == BinOp::Add ==> ir_binop(g, op, a, b) == def(g, "add"@ + " i64 "@ + a + ", "@ + b),
        op == BinOp::Sub ==> ir_binop(g, op, a, b) == def(g, "sub"@ + " i64 "@ + a + ", "@ + b),
        op == BinOp::Mul ==> ir_binop(g, op, a, b) == def(g, "mul"@ + " i64 "@ + a + ", "@ + b),
        op == BinOp::Div ==> ir_binop(g, op, a, b) == def(g, "sdiv"@ + " i64 "@ + a + ", "@ + b),
        op == BinOp::And ==> ir_binop(g, op, a, b) == logic(g, "and"@, a, b),
        op == BinOp::Or ==> ir_binop(g, op, a, b) == logic(g, "or"@, a, b),
{
    reveal_strlit("eq");
    reveal_strlit("ne");
    reveal_strlit("slt");
    reveal_strlit("sle");
    reveal_strlit("sgt");
    reveal_strlit("sge");
    assert("eq"@ != "ne"@) by {
        assert("eq"@[0] != "ne"@[0]);
    }
    assert("slt"@ != "sle"@ && "slt"@ != "sgt"@ && "slt"@ != "sge"@) by {
        assert("slt"@[1] != "sgt"@[1]);
        assert("slt"@[2] != "sle"@[2]);
        assert("slt"@[1] != "sge"@[1]);
    }
    assert("sle"@ != "sgt"@ && "sle"@ != "sge"@ && "sgt"@ != "sge"@) by {
        assert("sle"@[1] != "sgt"@[1]);
        assert("sle"@[1] != "sge"@[1]);
        assert("sgt"@[2] != "sge"@[2]);
    }
    let ab = " i64 "@ + a + ", "@ + b;
    assert("add"@ + ab == "add"@ + " i64 "@ + a + ", "@ + b);
    assert("sub"@ + ab == "sub"@ + " i64 "@ + a + ", "@ + b);
    assert("mul"@ + ab == "mul"@ + " i64 "@ + a + ", "@ + b);
    assert("sdiv"@ + ab == "sdiv"@ + " i64 "@ + a + ", "@ + b);
    if op == BinOp::Lt {
        assert(compare(g, "slt"@, a, b) == ir_binop(g, op, a, b));
    } else if op == BinOp::Le {
        assert(compare(g, "sle"@, a, b) == ir_binop(g, op, a, b));
    } else if op == BinOp::Gt {
        assert(compare(g, "sgt"@, a, b) == ir_binop(g, op, a, b));
    } else if op == BinOp::Ge {
        assert(compare(g, "sge"@, a, b) == ir_binop(g, op, a, b));
    } else if op == BinOp::Eq {
        assert(compare(g, "eq"@, a, b) == ir_binop(g, op, a, b));
    } else if op == BinOp::Ne {
        assert(compare(g, "ne"@, a, b) == ir_binop(g, op, a, b));
    }
}

pub open spec fn cd_of(b: BotV) -> i64 {
    match b.cd {
        Some(c) => c,
        None => 0,
    }
}

/// Code of an expression and its operand.
pub open spec fn ir_expr(cx: Ctx, g: GenV, e: ExprV) -> Result<(GenV, Seq<char>), Seq<char>>
    decreases expr_size(e), 1int,
{
    match e.kind {
        ExprKindV::Int(n) => Ok((g, decimal(n as int))),
        ExprKindV::Bool(b) => Ok((g, if b { "1"@ } else { "0"@ })),
        ExprKindV::Str(_) => Err("chaîne hors d'un « up » non supportée par le backend natif"@),
        ExprKindV::Pa => Ok(def(g, "call i64 @cdc_rt_pa(ptr %rt)"@)),
        ExprKindV::Pm => Ok(def(g, "call i64 @cdc_rt_pm(ptr %rt)"@)),
        ExprKindV::Suspicion => Ok(def(g, "call i64 @cdc_rt_suspicion(ptr %rt)"@)),
        ExprKindV::Var(name) => ir_read(g, name),
        ExprKindV::Unary(op, x) => match ir_expr(cx, g, *x) {
            Err(m) => Err(m),
            Ok((g1, v)) => match op {
                UnOp::Neg => Ok(def(g1, "sub i64 0, "@ + v)),
                UnOp::Not => {
                    let (g2, c) = def(g1, "icmp eq i64 "@ + v + ", 0"@);
                    Ok(zext(g2, c))
                },
            },
        },
        ExprKindV::Binary(op, l, r) => match ir_expr(cx, g, *l) {
            Err(m) => Err(m),
            Ok((g1, a)) => match ir_expr(cx, g1, *r) {
                Err(m) => Err(m),
                Ok((g2, b)) => Ok(ir_binop(g2, op, a, b)),
            },
        },
        ExprKindV::Call(name, args) => ir_call(cx, g, name, args),
        ExprKindV::Path(left, member) => match lookup_slot(g.scopes, left) {
            Some(_) => Err("accès de champ d'instance non supporté par le backend natif"@),
            None => match tag_of(cx, left, member) {
                Some(t) => Ok((g, decimal(t as int))),
                None => Err("« "@ + left + "."@ + member + " » inconnu"@),
            },
        },
        ExprKindV::Struct(_, _) => Err("construction de perso non supportée par le backend natif"@),
    }
}

/// Code of the arguments, left to right, and the text `, i64 a1, i64 a2…`.
pub open spec fn ir_args(cx: Ctx, g: GenV, s: Seq<ExprV>) -> Result<(GenV, Seq<char>), Seq<char>>
    decreases exprs_size(s), 0int,
{
    if s.len() == 0 {
        Ok((g, Seq::empty()))
    } else {
        match ir_args(cx, g, s.drop_last()) {
            Err(m) => Err(m),
            Ok((g1, t)) => match ir_expr(cx, g1, s.last()) {
                Err(m) => Err(m),
                Ok((g2, v)) => Ok((g2, t + ", i64 "@ + v)),
            },
        }
    }
}

/// A call: a draw, a cooldown query, or a bot cast (guarded by its cooldown, charged in a
/// `tour`, observed, then put on cooldown).
pub open spec fn ir_call(cx: Ctx, g: GenV, name: Seq<char>, args: Seq<ExprV>) -> Result<(GenV, Seq<char>), Seq<char>>
    decreases exprs_size(args), 2int,
{
    if name == "rand"@ || name == "butin"@ {
        if args.len() != 2 {
            Err(quoted(name) + " attend 2 arguments"@)
        } else {
            match ir_args(cx, g, args) {
                Err(m) => Err(m),
                Ok((g1, t)) => Ok(def(g1, "call i64 @cdc_rt_"@ + name + "(ptr %rt"@ + t + ")"@)),
            }
        }
    } else if name == "cd_pret"@ {
        if args.len() > 0 && args[0].kind is Var {
            let (g1, r) = str_ref(g, args[0].kind->Var_0);
            Ok(def(g1, "call i64 @cdc_rt_cd_pret(ptr %rt, "@ + r + ")"@))
        } else {
            Err("cd_pret attend un nom de bot"@)
        }
    } else {
        match find_bot(cx.items, name) {
            None => Err("bot inconnu "@ + quoted(name)),
            Some(b) => {
                let (g1, r) = str_ref(g, name);
                let g2 = line(g1, "call void @cdc_rt_guard_cd(ptr %rt, "@ + r + ")"@);
                match ir_args(cx, g2, args) {
                    Err(m) => Err(m),
                    Ok((g3, t)) => {
                        let g4 = if g3.in_tour {
                            line(g3, "call void @cdc_rt_spend_pa(ptr %rt, i64 "@
                                + decimal(cost_map(cx.items, cx.cfg)[name] as int) + ")"@)
                        } else {
                            g3
                        };
                        let g5 = line(g4, "call void @cdc_rt_act_bot(ptr %rt, "@ + r + ")"@);
                        let g6 = line(g5, "call void @cdc_rt_set_cooldown(ptr %rt, "@ + r + ", i64 "@
                            + decimal(cd_of(b) as int) + ")"@);
                        Ok(def(g6, "call i64 @\"cdl_bot_"@ + name + "\"(ptr %rt"@ + t + ")"@))
                    },
                }
            },
        }
    }
}

/// A condition as an `i1`: its reads are free.
pub open spec fn ir_cond(cx: Ctx, g: GenV, e: ExprV) -> Result<(GenV, Seq<char>), Seq<char>>
    decreases expr_size(e), 2int,
{
    match ir_expr(cx, GenV { perception: true, ..g }, e) {
        Err(m) => Err(m),
        Ok((g1, v)) => Ok(def(GenV { perception: g.perception, ..g1 }, "icmp ne i64 "@ + v + ", 0"@)),
    }
}

/// A block in a scope of its own; `true` when it ends with a `gg`.
pub open spec fn ir_block(cx: Ctx, g: GenV, b: BlockV) -> Result<(GenV, bool), Seq<char>>
    decreases block_size(b), 0int,
{
    match ir_stmts(cx, GenV { scopes: g.scopes.push(Seq::empty()), ..g }, b.stmts) {
        Err(m) => Err(m),
        Ok((g1, t)) => Ok((GenV { scopes: g1.scopes.drop_last(), ..g1 }, t)),
    }
}

/// Statements in order, up to the first `gg`.
pub open spec fn ir_stmts(cx: Ctx, g: GenV, s: Seq<StmtV>) -> Result<(GenV, bool), Seq<char>>
    decreases stmts_size(s), 0int,
{
    if s.len() == 0 {
        Ok((g, false))
    } else {
        match ir_stmts(cx, g, s.drop_last()) {
            Ok((g1, false)) => ir_stmt(cx, g1, s.last()),
            other => other,
        }
    }
}

/// `loot`/`ban`: the value, the AP of the assignment in a `tour`, then a new slot.
pub open spec fn ir_decl(cx: Ctx, g: GenV, name: Seq<char>, value: ExprV) -> Result<(GenV, bool), Seq<char>>
    decreases expr_size(value), 3int,
{
    match ir_expr(cx, g, value) {
        Err(m) => Err(m),
        Ok((g1, v)) => {
            let g2 = if g1.in_tour { line(g1, "call void @cdc_rt_spend_assign(ptr %rt)"@) } else { g1 };
            let (g3, k) = alloca(g2, name);
            Ok((line(g3, store(v, k)), false))
        },
    }
}

pub open spec fn ir_assign(cx: Ctx, g: GenV, name: Seq<char>, op: AssignOp, value: ExprV) -> Result<(GenV, bool), Seq<char>>
    decreases expr_size(value), 3int,
{
    match ir_expr(cx, g, value) {
        Err(m) => Err(m),
        Ok((g1, rhs)) => {
            let nv = if op == AssignOp::Replace {
                Ok((g1, rhs))
            } else {
                match ir_read(g1, name) {
                    Err(m) => Err(m),
                    Ok((g2, cur)) => Ok(def(g2, (if op == AssignOp::Add { "add i64 "@ } else { "sub i64 "@ }) + cur + ", "@ + rhs)),
                }
            };
            match nv {
                Err(m) => Err(m),
                Ok((g2, v)) => {
                    let g3 = if g2.in_tour { line(g2, "call void @cdc_rt_spend_assign(ptr %rt)"@) } else { g2 };
                    match lookup_slot(g3.scopes, name) {
                        None => Err("variable indéfinie "@ + quoted(name)),
                        Some((k, _)) => Ok((line(g3, store(v, k)), false)),
                    }
                },
            }
        },
    }
}

/// Three fresh labels.
pub open spec fn labels3(g: GenV) -> (GenV, u64, u64, u64) {
    (bump(bump(bump(g))), g.n, next_n(g.n), next_n(next_n(g.n)))
}

/// `farm cond { body }`: test, body, back to the test.
pub open spec fn ir_farm(cx: Ctx, g: GenV, cond: ExprV, body: BlockV) -> Result<(GenV, bool), Seq<char>>
    decreases expr_size(cond) + block_size(body), 2int,
{
    let (g1, c, bo, en) = labels3(g);
    let g2 = start(line(g1, br(c)), c);
    match ir_cond(cx, g2, cond) {
        Err(m) => Err(m),
        Ok((g3, v)) => {
            let g4 = start(line(g3, "br i1 "@ + v + ", label %"@ + label(bo) + ", label %"@ + label(en)), bo);
            match ir_block(cx, g4, body) {
                Err(m) => Err(m),
                Ok((g5, t)) => {
                    let g6 = if t { g5 } else { line(g5, br(c)) };
                    Ok((start(g6, en), false))
                },
            }
        },
    }
}

/// `grind var de from a to { body }`: bounds evaluated once, the counter in its own scope.
pub open spec fn ir_grind(cx: Ctx, g: GenV, var: Seq<char>, from: ExprV, to: ExprV, body: BlockV) -> Result<(GenV, bool), Seq<char>>
    decreases expr_size(from) + expr_size(to) + block_size(body), 2int,
{
    match ir_expr(cx, g, from) {
        Err(m) => Err(m),
        Ok((g1, fv)) => match ir_expr(cx, g1, to) {
            Err(m) => Err(m),
            Ok((g2, tv)) => {
                let (g3, k) = alloca(GenV { scopes: g2.scopes.push(Seq::empty()), ..g2 }, var);
                let (g4, c, bo, en) = labels3(line(g3, store(fv, k)));
                let g5 = start(line(g4, br(c)), c);
                let (g6, cur) = def(g5, "load i64, ptr "@ + slot(k));
                let (g7, le) = def(g6, "icmp sle i64 "@ + cur + ", "@ + tv);
                let g8 = start(line(g7, "br i1 "@ + le + ", label %"@ + label(bo) + ", label %"@ + label(en)), bo);
                match ir_block(cx, g8, body) {
                    Err(m) => Err(m),
                    Ok((g9, t)) => {
                        let g10 = if t {
                            g9
                        } else {
                            let (ga, c2) = def(g9, "load i64, ptr "@ + slot(k));
                            let (gb, nx) = def(ga, "add i64 "@ + c2 + ", 1"@);
                            line(line(gb, store(nx, k)), br(c))
                        };
                        let g11 = start(g10, en);
                        Ok((GenV { scopes: g11.scopes.drop_last(), ..g11 }, false))
                    },
                }
            },
        },
    }
}

/// `detect cond { … } sinon { … }`: both branches meet after the statement.
pub open spec fn ir_detect(cx: Ctx, g: GenV, cond: ExprV, th: BlockV, el: Option<BlockV>) -> Result<(GenV, bool), Seq<char>>
    decreases expr_size(cond) + block_size(th) + match el { Some(b) => block_size(b), None => 0 }, 2int,
{
    match ir_cond(cx, g, cond) {
        Err(m) => Err(m),
        Ok((g1, v)) => {
            let (g2, lt, le, lm) = labels3(g1);
            let g3 = start(line(g2, "br i1 "@ + v + ", label %"@ + label(lt) + ", label %"@ + label(le)), lt);
            match ir_block(cx, g3, th) {
                Err(m) => Err(m),
                Ok((g4, t1)) => {
                    let g5 = start(if t1 { g4 } else { line(g4, br(lm)) }, le);
                    let r2 = match el {
                        Some(b) => ir_block(cx, g5, b),
                        None => Ok((g5, false)),
                    };
                    match r2 {
                        Err(m) => Err(m),
                        Ok((g6, t2)) => Ok((start(if t2 { g6 } else { line(g6, br(lm)) }, lm), false)),
                    }
                },
            }
        },
    }
}

/// A statement; `true` when it leaves the function (`gg`).
pub open spec fn ir_stmt(cx: Ctx, g: GenV, s: StmtV) -> Result<(GenV, bool), Seq<char>>
    decreases stmt_size(s), 3int,
{
    match s {
        StmtV::Loot { name, value, .. } => ir_decl(cx, g, name, value),
        StmtV::Ban { name, value, .. } => ir_decl(cx, g, name, value),
        StmtV::Assign { name, op, value, .. } => ir_assign(cx, g, name, op, value),
        StmtV::Tour(b) => {
            let g1 = line(g, "call void @cdc_rt_start_turn(ptr %rt)"@);
            match ir_block(cx, GenV { in_tour: true, tour_base: g1.scopes.len(), ..g1 }, b) {
                Err(m) => Err(m),
                Ok((g2, t)) => Ok((GenV { in_tour: g1.in_tour, tour_base: g1.tour_base, ..g2 }, t)),
            }
        },
        StmtV::Passer => Ok((line(g, "call void @cdc_rt_end_turn(ptr %rt)"@), false)),
        StmtV::Farm { cond, body } => ir_farm(cx, g, cond, body),
        StmtV::Grind { var, from, to, body } => ir_grind(cx, g, var, from, to, body),
        StmtV::Detect { cond, then_branch, else_branch } => ir_detect(cx, g, cond, then_branch, else_branch),
        StmtV::Gg(opt) => if g.in_main {
            Ok((line(g, "br label %exit"@), true))
        } else {
            match opt {
                Some(e) => match ir_expr(cx, g, e) {
                    Err(m) => Err(m),
                    Ok((g1, v)) => Ok((line(g1, "ret i64 "@ + v), true)),
                },
                None => Ok((line(g, "ret i64 0"@), true)),
            }
        },
        StmtV::Up(e) => match e.kind {
            ExprKindV::Str(txt) => {
                let (g1, r) = str_ref(g, txt);
                let g2 = if g1.in_tour { line(g1, "call void @cdc_rt_spend_up(ptr %rt)"@) } else { g1 };
                Ok((line(g2, "call void @cdc_rt_up(ptr %rt, "@ + r + ")"@), false))
            },
            _ => Err("« up » n'accepte qu'un littéral chaîne dans le backend natif"@),
        },
        StmtV::Afk(e) => match ir_expr(cx, g, e) {
            Err(m) => Err(m),
            Ok((g1, v)) => Ok((line(g1, "call void @cdc_rt_afk(ptr %rt, i64 "@ + v + ")"@), false)),
        },
        StmtV::Expr(e) => match ir_expr(cx, g, e) {
            Err(m) => Err(m),
            Ok((g1, _)) => Ok((g1, false)),
        },
    }
}

// ------------------------------------------------------------------ code: state and helpers

/// Generation state (see `GenV`).
struct Gen {
    code: String,
    n: u64,
    scopes: Vec<Vec<(String, u64)>>,
    in_tour: bool,
    tour_base: usize,
    perception: bool,
    in_main: bool,
    pm_ids: Vec<String>,
    strs: Vec<String>,
}

pub open spec fn scope_v(s: Seq<(String, u64)>) -> Seq<(Seq<char>, u64)> {
    s.map_values(|p: (String, u64)| (p.0@, p.1))
}

pub open spec fn scopes_v(s: Seq<Vec<(String, u64)>>) -> Seq<Seq<(Seq<char>, u64)>> {
    s.map_values(|v: Vec<(String, u64)>| scope_v(v@))
}

pub open spec fn strings_v(s: Seq<String>) -> Seq<Seq<char>> {
    s.map_values(|t: String| t@)
}

impl View for Gen {
    type V = GenV;

    closed spec fn view(&self) -> GenV {
        GenV {
            code: self.code@,
            n: self.n,
            scopes: scopes_v(self.scopes@),
            in_tour: self.in_tour,
            tour_base: self.tour_base as nat,
            perception: self.perception,
            in_main: self.in_main,
            pm_ids: strings_v(self.pm_ids@),
            strs: strings_v(self.strs@),
        }
    }
}

fn push_num(s: &mut String, k: u64)
    ensures
        final(s)@ == old(s)@ + digits_of(k as nat),
{
    let t = nat_text(k);
    push_text(s, t.as_str());
}

fn fresh_x(g: &mut Gen) -> (k: u64)
    ensures
        k == old(g)@.n,
        final(g)@ == bump(old(g)@),
{
    let k = g.n;
    if g.n < u64::MAX {
        g.n = g.n + 1;
    }
    k
}

fn emit_x(g: &mut Gen, t: &str)
    ensures
        final(g)@ == emit(old(g)@, t@),
{
    push_text(&mut g.code, t);
}

fn line_x(g: &mut Gen, t: &str)
    ensures
        final(g)@ == line(old(g)@, t@),
{
    let ghost c0 = g.code@;
    push_text(&mut g.code, "  ");
    push_text(&mut g.code, t);
    push_text(&mut g.code, "\n");
    proof {
        assert(g.code@ =~= c0 + ("  "@ + t@ + "\n"@));
    }
}

fn tmp_x(k: u64) -> (s: String)
    ensures
        s@ == tmp(k),
{
    let mut s = owned("%t");
    push_num(&mut s, k);
    s
}

fn slot_x(k: u64) -> (s: String)
    ensures
        s@ == slot(k),
{
    let mut s = owned("%v");
    push_num(&mut s, k);
    s
}

fn label_x(k: u64) -> (s: String)
    ensures
        s@ == label(k),
{
    let mut s = owned("L");
    push_num(&mut s, k);
    s
}

fn def_x(g: &mut Gen, rhs: &str) -> (v: String)
    ensures
        (final(g)@, v@) == def(old(g)@, rhs@),
{
    let ghost c0 = g.code@;
    let k = fresh_x(g);
    let v = tmp_x(k);
    push_text(&mut g.code, "  ");
    push_text(&mut g.code, v.as_str());
    push_text(&mut g.code, " = ");
    push_text(&mut g.code, rhs);
    push_text(&mut g.code, "\n");
    proof {
        assert(g.code@ =~= c0 + ("  "@ + tmp(k) + " = "@ + rhs@ + "\n"@));
    }
    v
}

fn br_x(g: &mut Gen, k: u64)
    ensures
        final(g)@ == line(old(g)@, br(k)),
{
    let mut t = owned("br label %");
    let l = label_x(k);
    push_text(&mut t, l.as_str());
    line_x(g, t.as_str());
}

fn start_x(g: &mut Gen, k: u64)
    ensures
        final(g)@ == start(old(g)@, k),
{
    let ghost c0 = g.code@;
    let l = label_x(k);
    push_text(&mut g.code, l.as_str());
    push_text(&mut g.code, ":\n");
    proof {
        assert(g.code@ =~= c0 + (label(k) + ":\n"@));
    }
}

fn store_x(g: &mut Gen, v: &str, k: u64)
    ensures
        final(g)@ == line(old(g)@, store(v@, k)),
{
    let mut t = owned("store i64 ");
    push_text(&mut t, v);
    push_text(&mut t, ", ptr ");
    let sl = slot_x(k);
    push_text(&mut t, sl.as_str());
    line_x(g, t.as_str());
}

fn cond_br_x(g: &mut Gen, v: &str, a: u64, b: u64)
    ensures
        final(g)@ == line(old(g)@, "br i1 "@ + v@ + ", label %"@ + label(a) + ", label %"@ + label(b)),
{
    let mut t = owned("br i1 ");
    push_text(&mut t, v);
    push_text(&mut t, ", label %");
    let la = label_x(a);
    push_text(&mut t, la.as_str());
    push_text(&mut t, ", label %");
    let lb = label_x(b);
    push_text(&mut t, lb.as_str());
    line_x(g, t.as_str());
}

fn find_in_x(s: &Vec<(String, u64)>, name: &String) -> (r: Option<u64>)
    ensures
        r == find_in(scope_v(s@), name@),
{
    let ghost sv = scope_v(s@);
    let mut i = s.len();
    proof {
        assert(sv.take(i as int) =~= sv);
    }
    while i > 0
        invariant
            sv == scope_v(s@),
            i <= s@.len(),
            find_in(sv, name@) == find_in(sv.take(i as int), name@),
        decreases i,
    {
        let j = i - 1;
        proof {
            assert(sv.take(i as int).drop_last() =~= sv.take(j as int));
            assert(sv.take(i as int).last() == sv[j as int]);
        }
        if string_eq(&s[j].0, name) {
            return Some(s[j].1);
        }
        i = j;
    }
    None
}

fn lookup_slot_x(g: &Gen, name: &String) -> (r: Option<(u64, usize)>)
    ensures
        match r {
            Some((k, i)) => lookup_slot(g@.scopes, name@) == Some((k, i as nat)),
            None => lookup_slot(g@.scopes, name@) is None,
        },
{
    let ghost sc = g@.scopes;
    let mut i = g.scopes.len();
    proof {
        assert(sc.take(i as int) =~= sc);
    }
    while i > 0
        invariant
            sc == scopes_v(g.scopes@),
            i <= g.scopes@.len(),
            lookup_slot(sc, name@) == lookup_slot(sc.take(i as int), name@),
        decreases i,
    {
        let j = i - 1;
        proof {
            assert(sc.take(i as int).drop_last() =~= sc.take(j as int));
            assert(sc.take(i as int).last() == sc[j as int]);
        }
        match find_in_x(&g.scopes[j], name) {
            Some(k) => {
                return Some((k, j));
            },
            None => {},
        }
        i = j;
    }
    None
}

fn alloca_x(g: &mut Gen, name: &String) -> (k: u64)
    ensures
        (final(g)@, k) == alloca(old(g)@, name@),
{
    let k = g.n;
    let ghost g0 = g@;
    if g.scopes.len() == 0 {
        let mut s: Vec<(String, u64)> = Vec::new();
        s.push((name.clone(), k));
        proof {
            assert(scope_v(s@) =~= seq![(name@, k)]);
        }
        g.scopes.push(s);
        proof {
            assert(scopes_v(g.scopes@) =~= seq![seq![(name@, k)]]);
        }
    } else {
        let mut s = g.scopes.pop().unwrap();
        s.push((name.clone(), k));
        g.scopes.push(s);
        proof {
            assert(scope_v(s@) =~= g0.scopes.last().push((name@, k)));
            assert(scopes_v(g.scopes@) =~= g0.scopes.update(g0.scopes.len() - 1, g0.scopes.last().push((name@, k))));
        }
    }
    let ghost c0 = g.code@;
    let sl = slot_x(k);
    push_text(&mut g.code, "  ");
    push_text(&mut g.code, sl.as_str());
    push_text(&mut g.code, " = alloca i64\n");
    proof {
        assert(g.code@ =~= c0 + ("  "@ + slot(k) + " = alloca i64\n"@));
    }
    fresh_x(g);
    k
}

fn pm_id_x(g: &mut Gen, name: &String) -> (id: usize)
    ensures
        id == pm_index(old(g)@.pm_ids, name@),
        final(g)@ == (GenV { pm_ids: pm_ids_after(old(g)@.pm_ids, name@), ..old(g)@ }),
{
    let ghost ids = g@.pm_ids;
    let mut i: usize = 0;
    while i < g.pm_ids.len()
        invariant
            ids == strings_v(g.pm_ids@),
            i <= ids.len(),
            forall|j: int| 0 <= j < i ==> ids[j] != name@,
        decreases g.pm_ids.len() - i,
    {
        if string_eq(&g.pm_ids[i], name) {
            proof {
                assert(ids[i as int] == name@);
                assert(ids.contains(name@));
                let c = choose|q: int| 0 <= q < ids.len() && #[trigger] ids[q] == name@ && forall|j: int| 0 <= j < q ==> ids[j] != name@;
                assert(c == i) by {
                    if c < i {
                        assert(ids[c] != name@);
                    } else if c > i {
                        assert(ids[i as int] != name@);
                    }
                }
            }
            return i;
        }
        i += 1;
    }
    proof {
        assert(!ids.contains(name@));
    }
    let n = g.pm_ids.len();
    g.pm_ids.push(name.clone());
    proof {
        assert(strings_v(g.pm_ids@) =~= ids.push(name@));
        assert(!(exists|q: int| 0 <= q < ids.len() && #[trigger] ids[q] == name@));
    }
    n
}

fn read_x(g: &mut Gen, name: &String) -> (r: Result<String, String>)
    ensures
        match r {
            Ok(v) => ir_read(old(g)@, name@) == Ok::<(GenV, Seq<char>), Seq<char>>((final(g)@, v@)),
            Err(m) => ir_read(old(g)@, name@) == Err::<(GenV, Seq<char>), Seq<char>>(m@),
        },
        final(g)@.scopes == old(g)@.scopes,
{
    match lookup_slot_x(g, name) {
        None => {
            let mut m = owned("variable indéfinie ");
            let q = quoted_x(name.as_str());
            push_text(&mut m, q.as_str());
            Err(m)
        },
        Some((k, idx)) => {
            if g.in_tour && !g.perception && idx < g.tour_base {
                let id = pm_id_x(g, name);
                let mut t = owned("call void @cdc_rt_pm_touch(ptr %rt, i64 ");
                push_num(&mut t, id as u64);
                push_text(&mut t, ")");
                line_x(g, t.as_str());
            }
            let mut rhs = owned("load i64, ptr ");
            let sl = slot_x(k);
            push_text(&mut rhs, sl.as_str());
            let v = def_x(g, rhs.as_str());
            Ok(v)
        },
    }
}

fn str_ref_x(g: &mut Gen, s: &String) -> (r: String)
    ensures
        (final(g)@, r@) == str_ref(old(g)@, s@),
{
    let k = g.strs.len();
    let len = s.as_str().as_bytes().len();
    g.strs.push(s.clone());
    let mut r = owned("ptr @s");
    push_num(&mut r, k as u64);
    push_text(&mut r, ", i64 ");
    push_num(&mut r, len as u64);
    proof {
        assert(strings_v(g.strs@) =~= old(g)@.strs.push(s@));
    }
    r
}

// ------------------------------------------------------------------ code: expressions

/// What generation reads: the items, their effective costs and the tags after patch drift.
struct Env<'a> {
    items: &'a Vec<Item>,
    costs: CostTable,
    tags: Vec<(String, Vec<(String, i64)>)>,
    cfg: Config,
}

impl<'a> Env<'a> {
    spec fn ok(&self) -> bool {
        &&& self.costs@ == cost_map(items_v(self.items@), self.cfg)
        &&& tags_v(self.tags@) == tag_table(items_v(self.items@), self.cfg.patch_seed)
    }

    spec fn cx(&self) -> Ctx {
        Ctx { items: items_v(self.items@), cfg: self.cfg }
    }
}

/// The executable result `r`, with the state `g` it leaves, is the one the spec gives.
spec fn same_v(s: Result<(GenV, Seq<char>), Seq<char>>, g: GenV, r: Result<String, String>) -> bool {
    match r {
        Ok(v) => s == Ok::<(GenV, Seq<char>), Seq<char>>((g, v@)),
        Err(m) => s == Err::<(GenV, Seq<char>), Seq<char>>(m@),
    }
}

spec fn same_b(s: Result<(GenV, bool), Seq<char>>, g: GenV, r: Result<bool, String>) -> bool {
    match r {
        Ok(t) => s == Ok::<(GenV, bool), Seq<char>>((g, t)),
        Err(m) => s == Err::<(GenV, bool), Seq<char>>(m@),
    }
}

fn zext_x(g: &mut Gen, c: &str) -> (v: String)
    ensures
        (final(g)@, v@) == zext(old(g)@, c@),
{
    let mut t = owned("zext i1 ");
    push_text(&mut t, c);
    push_text(&mut t, " to i64");
    def_x(g, t.as_str())
}

fn compare_x(g: &mut Gen, pred: &str, a: &str, b: &str) -> (v: String)
    ensures
        (final(g)@, v@) == compare(old(g)@, pred@, a@, b@),
{
    let mut t = owned("icmp ");
    push_text(&mut t, pred);
    push_text(&mut t, " i64 ");
    push_text(&mut t, a);
    push_text(&mut t, ", ");
    push_text(&mut t, b);
    let c = def_x(g, t.as_str());
    zext_x(g, c.as_str())
}

fn truth_x(g: &mut Gen, a: &str) -> (v: String)
    ensures
        (final(g)@, v@) == def(old(g)@, "icmp ne i64 "@ + a@ + ", 0"@),
{
    let mut t = owned("icmp ne i64 ");
    push_text(&mut t, a);
    push_text(&mut t, ", 0");
    def_x(g, t.as_str())
}

fn logic_x(g: &mut Gen, op: &str, a: &str, b: &str) -> (v: String)
    ensures
        (final(g)@, v@) == logic(old(g)@, op@, a@, b@),
{
    let x = truth_x(g, a);
    let y = truth_x(g, b);
    let mut t = owned(op);
    push_text(&mut t, " i1 ");
    push_text(&mut t, x.as_str());
    push_text(&mut t, ", ");
    push_text(&mut t, y.as_str());
    let z = def_x(g, t.as_str());
    zext_x(g, z.as_str())
}

fn arith_x(g: &mut Gen, op: &str, a: &str, b: &str) -> (v: String)
    ensures
        (final(g)@, v@) == def(old(g)@, op@ + " i64 "@ + a@ + ", "@ + b@),
{
    let mut t = owned(op);
    push_text(&mut t, " i64 ");
    push_text(&mut t, a);
    push_text(&mut t, ", ");
    push_text(&mut t, b);
    proof {
        assert(t@ =~= op@ + " i64 "@ + a@ + ", "@ + b@);
    }
    def_x(g, t.as_str())
}

fn binop_x(g: &mut Gen, op: BinOp, a: &str, b: &str) -> (v: String)
    ensures
        (final(g)@, v@) == ir_binop(old(g)@, op, a@, b@),
{
    proof {
        assert(forall|o: Seq<char>| #![auto] o + " i64 "@ + a@ + ", "@ + b@ == o + (" i64 "@ + a@ + ", "@ + b@));
    }
    match op {
        BinOp::Add => arith_x(g, "add", a, b),
        BinOp::Sub => arith_x(g, "sub", a, b),
        BinOp::Mul => arith_x(g, "mul", a, b),
        BinOp::Div => arith_x(g, "sdiv", a, b),
        BinOp::Lt => compare_x(g, "slt", a, b),
        BinOp::Le => compare_x(g, "sle", a, b),
        BinOp::Gt => compare_x(g, "sgt", a, b),
        BinOp::Ge => compare_x(g, "sge", a, b),
        BinOp::Eq => compare_x(g, "eq", a, b),
        BinOp::Ne => compare_x(g, "ne", a, b),
        BinOp::And => logic_x(g, "and", a, b),
        BinOp::Or => logic_x(g, "or", a, b),
    }
}

fn expr_x(env: &Env, g: &mut Gen, e: &Expr) -> (r: Result<String, String>)
    requires
        env.ok(),
    ensures
        same_v(ir_expr(env.cx(), old(g)@, e@), final(g)@, r),
        final(g)@.scopes == old(g)@.scopes,
    decreases expr_size(e@), 1int,
{
    match &e.kind {
        ExprKind::Int(n) => Ok(int_text(*n)),
        ExprKind::Bool(b) => Ok(owned(if *b { "1" } else { "0" })),
        ExprKind::Str(_) => Err(owned("chaîne hors d'un « up » non supportée par le backend natif")),
        ExprKind::Pa => Ok(def_x(g, "call i64 @cdc_rt_pa(ptr %rt)")),
        ExprKind::Pm => Ok(def_x(g, "call i64 @cdc_rt_pm(ptr %rt)")),
        ExprKind::Suspicion => Ok(def_x(g, "call i64 @cdc_rt_suspicion(ptr %rt)")),
        ExprKind::Var(name) => read_x(g, name),
        ExprKind::Unary(op, x) => match expr_x(env, g, x) {
            Err(m) => Err(m),
            Ok(v) => match op {
                UnOp::Neg => {
                    let mut t = owned("sub i64 0, ");
                    push_text(&mut t, v.as_str());
                    Ok(def_x(g, t.as_str()))
                },
                UnOp::Not => {
                    let mut t = owned("icmp eq i64 ");
                    push_text(&mut t, v.as_str());
                    push_text(&mut t, ", 0");
                    let c = def_x(g, t.as_str());
                    Ok(zext_x(g, c.as_str()))
                },
            },
        },
        ExprKind::Binary(op, l, r) => match expr_x(env, g, l) {
            Err(m) => Err(m),
            Ok(a) => match expr_x(env, g, r) {
                Err(m) => Err(m),
                Ok(b) => Ok(binop_x(g, *op, a.as_str(), b.as_str())),
            },
        },
        ExprKind::Call(..) => call_x(env, g, e),
        ExprKind::Path(left, member) => match lookup_slot_x(g, left) {
            Some(_) => Err(owned("accès de champ d'instance non supporté par le backend natif")),
            None => match tag_get(&env.tags, left, member) {
                Some(t) => Ok(int_text(t)),
                None => {
                    let mut m = owned("« ");
                    push_text(&mut m, left.as_str());
                    push_text(&mut m, ".");
                    push_text(&mut m, member.as_str());
                    push_text(&mut m, " » inconnu");
                    Err(m)
                },
            },
        },
        ExprKind::Struct(..) => Err(owned("construction de perso non supportée par le backend natif")),
    }
}

fn args_x(env: &Env, g: &mut Gen, args: &Vec<Expr>) -> (r: Result<String, String>)
    requires
        env.ok(),
    ensures
        same_v(ir_args(env.cx(), old(g)@, exprs_v(args@)), final(g)@, r),
        final(g)@.scopes == old(g)@.scopes,
    decreases exprs_size(exprs_v(args@)), 0int,
{
    let ghost a = exprs_v(args@);
    let ghost cx = env.cx();
    let ghost g0 = g@;
    proof {
        lemma_exprs_v(args@);
        assert(a.take(0) =~= Seq::<ExprV>::empty());
    }
    let mut t = String::new();
    let mut i: usize = 0;
    while i < args.len()
        invariant
            env.ok(),
            cx == env.cx(),
            g0 == old(g)@,
            g@.scopes == g0.scopes,
            a == exprs_v(args@),
            a.len() == args@.len(),
            forall|j: int| 0 <= j < a.len() ==> #[trigger] a[j] == args@[j]@,
            i <= a.len(),
            ir_args(cx, g0, a.take(i as int)) == Ok::<(GenV, Seq<char>), Seq<char>>((g@, t@)),
        decreases a.len() - i,
    {
        proof {
            lemma_exprs_size_index(a, i as int);
            assert(a.take(i + 1).drop_last() =~= a.take(i as int));
            assert(a.take(i + 1).last() == a[i as int]);
        }
        let ghost gb = g@;
        match expr_x(env, g, &args[i]) {
            Err(m) => {
                proof {
                    assert(ir_args(cx, g0, a.take(i + 1)) == Err::<(GenV, Seq<char>), Seq<char>>(m@));
                    lemma_args_err(cx, g0, a, i + 1);
                }
                return Err(m);
            },
            Ok(v) => {
                push_text(&mut t, ", i64 ");
                push_text(&mut t, v.as_str());
            },
        }
        i += 1;
    }
    proof {
        assert(a.take(i as int) =~= a);
    }
    Ok(t)
}

proof fn lemma_args_err(cx: Ctx, g: GenV, a: Seq<ExprV>, k: int)
    requires
        0 <= k <= a.len(),
        ir_args(cx, g, a.take(k)) is Err,
    ensures
        ir_args(cx, g, a) == ir_args(cx, g, a.take(k)),
    decreases a.len(),
{
    if k == a.len() {
        assert(a.take(k) =~= a);
    } else {
        assert(a.drop_last().take(k) =~= a.take(k));
        lemma_args_err(cx, g, a.drop_last(), k);
    }
}

fn call_x(env: &Env, g: &mut Gen, e: &Expr) -> (r: Result<String, String>)
    requires
        env.ok(),
        e@.kind is Call,
    ensures
        same_v(ir_expr(env.cx(), old(g)@, e@), final(g)@, r),
        final(g)@.scopes == old(g)@.scopes,
    decreases expr_size(e@), 0int,
{
    let ghost cx = env.cx();
    match &e.kind {
        ExprKind::Call(name, args) => {
            let ghost a = exprs_v(args@);
            let ghost g0 = g@;
            proof {
                lemma_exprs_v(args@);
                assert(e@.kind == ExprKindV::Call(name@, a));
                assert(ir_expr(cx, g0, e@) == ir_call(cx, g0, name@, a));
            }
            if string_is(name, "rand") || string_is(name, "butin") {
                if args.len() != 2 {
                    let mut m = quoted_x(name.as_str());
                    push_text(&mut m, " attend 2 arguments");
                    return Err(m);
                }
                match args_x(env, g, args) {
                    Err(m) => Err(m),
                    Ok(t) => {
                        let mut c = owned("call i64 @cdc_rt_");
                        push_text(&mut c, name.as_str());
                        push_text(&mut c, "(ptr %rt");
                        push_text(&mut c, t.as_str());
                        push_text(&mut c, ")");
                        Ok(def_x(g, c.as_str()))
                    },
                }
            } else if string_is(name, "cd_pret") {
                let b = if args.len() > 0 {
                    match &args[0].kind {
                        ExprKind::Var(b) => Some(b),
                        _ => None,
                    }
                } else {
                    None
                };
                match b {
                    None => Err(owned("cd_pret attend un nom de bot")),
                    Some(b) => {
                        let r = str_ref_x(g, b);
                        let mut c = owned("call i64 @cdc_rt_cd_pret(ptr %rt, ");
                        push_text(&mut c, r.as_str());
                        push_text(&mut c, ")");
                        Ok(def_x(g, c.as_str()))
                    },
                }
            } else {
                match find_bot_x(env.items, name) {
                    None => {
                        let mut m = owned("bot inconnu ");
                        let q = quoted_x(name.as_str());
                        push_text(&mut m, q.as_str());
                        Err(m)
                    },
                    Some(b) => {
                        let r = str_ref_x(g, name);
                        let mut c = owned("call void @cdc_rt_guard_cd(ptr %rt, ");
                        push_text(&mut c, r.as_str());
                        push_text(&mut c, ")");
                        line_x(g, c.as_str());
                        match args_x(env, g, args) {
                            Err(m) => Err(m),
                            Ok(t) => {
                                if g.in_tour {
                                    let cost = match env.costs.get(name.as_str()) {
                                        Some(k) => k,
                                        None => 0,
                                    };
                                    let mut c = owned("call void @cdc_rt_spend_pa(ptr %rt, i64 ");
                                    let ct = int_text(cost);
                                    push_text(&mut c, ct.as_str());
                                    push_text(&mut c, ")");
                                    line_x(g, c.as_str());
                                }
                                let mut c = owned("call void @cdc_rt_act_bot(ptr %rt, ");
                                push_text(&mut c, r.as_str());
                                push_text(&mut c, ")");
                                line_x(g, c.as_str());
                                let cd = match b.cd {
                                    Some(k) => k,
                                    None => 0,
                                };
                                let mut c = owned("call void @cdc_rt_set_cooldown(ptr %rt, ");
                                push_text(&mut c, r.as_str());
                                push_text(&mut c, ", i64 ");
                                let cdt = int_text(cd);
                                push_text(&mut c, cdt.as_str());
                                push_text(&mut c, ")");
                                line_x(g, c.as_str());
                                let mut c = owned("call i64 @\"cdl_bot_");
                                push_text(&mut c, name.as_str());
                                push_text(&mut c, "\"(ptr %rt");
                                push_text(&mut c, t.as_str());
                                push_text(&mut c, ")");
                                Ok(def_x(g, c.as_str()))
                            },
                        }
                    },
                }
            }
        },
        _ => Err(owned("")),
    }
}

// ------------------------------------------------------------------ code: statements

/// Whether a result ends a statement list: an error, or a `gg`.
pub open spec fn stops(r: Result<(GenV, bool), Seq<char>>) -> bool {
    match r {
        Ok((_, t)) => t,
        Err(_) => true,
    }
}

proof fn lemma_stmts_stop(cx: Ctx, g: GenV, s: Seq<StmtV>, k: int)
    requires
        0 <= k <= s.len(),
        stops(ir_stmts(cx, g, s.take(k))),
    ensures
        ir_stmts(cx, g, s) == ir_stmts(cx, g, s.take(k)),
    decreases s.len(),
{
    if k == s.len() {
        assert(s.take(k) =~= s);
    } else {
        assert(s.drop_last().take(k) =~= s.take(k));
        lemma_stmts_stop(cx, g, s.drop_last(), k);
    }
}

fn cond_x(env: &Env, g: &mut Gen, e: &Expr) -> (r: Result<String, String>)
    requires
        env.ok(),
    ensures
        same_v(ir_cond(env.cx(), old(g)@, e@), final(g)@, r),
        final(g)@.scopes == old(g)@.scopes,
    decreases expr_size(e@), 2int,
{
    let saved = g.perception;
    g.perception = true;
    match expr_x(env, g, e) {
        Err(m) => Err(m),
        Ok(v) => {
            g.perception = saved;
            Ok(truth_x(g, v.as_str()))
        },
    }
}

fn block_x(env: &Env, g: &mut Gen, b: &Block) -> (r: Result<bool, String>)
    requires
        env.ok(),
    ensures
        same_b(ir_block(env.cx(), old(g)@, b@), final(g)@, r),
        r is Ok ==> final(g)@.scopes.len() == old(g)@.scopes.len(),
    decreases block_size(b@), 0int,
{
    let ghost g0 = g@;
    let fresh_scope: Vec<(String, u64)> = Vec::new();
    proof {
        assert(scope_v(fresh_scope@) =~= Seq::empty());
    }
    g.scopes.push(fresh_scope);
    proof {
        assert(g@.scopes =~= g0.scopes.push(Seq::empty()));
    }
    match stmts_x(env, g, &b.stmts) {
        Err(m) => Err(m),
        Ok(t) => {
            let ghost g1 = g@;
            g.scopes.pop();
            proof {
                assert(g@.scopes =~= g1.scopes.drop_last());
            }
            Ok(t)
        },
    }
}

fn stmts_x(env: &Env, g: &mut Gen, stmts: &Vec<Stmt>) -> (r: Result<bool, String>)
    requires
        env.ok(),
        old(g)@.scopes.len() > 0,
    ensures
        same_b(ir_stmts(env.cx(), old(g)@, stmts_v(stmts@)), final(g)@, r),
        r is Ok ==> final(g)@.scopes.len() == old(g)@.scopes.len(),
    decreases stmts_size(stmts_v(stmts@)), 0int,
{
    let ghost a = stmts_v(stmts@);
    let ghost cx = env.cx();
    let ghost g0 = g@;
    proof {
        lemma_stmts_v(stmts@);
        assert(a.take(0) =~= Seq::<StmtV>::empty());
    }
    let mut i: usize = 0;
    while i < stmts.len()
        invariant
            env.ok(),
            cx == env.cx(),
            g0 == old(g)@,
            g@.scopes.len() == g0.scopes.len(),
            g0.scopes.len() > 0,
            a == stmts_v(stmts@),
            a.len() == stmts@.len(),
            forall|j: int| 0 <= j < a.len() ==> #[trigger] a[j] == stmts@[j]@,
            i <= a.len(),
            ir_stmts(cx, g0, a.take(i as int)) == Ok::<(GenV, bool), Seq<char>>((g@, false)),
        decreases a.len() - i,
    {
        proof {
            lemma_stmts_size_index(a, i as int);
            assert(a.take(i + 1).drop_last() =~= a.take(i as int));
            assert(a.take(i + 1).last() == a[i as int]);
        }
        match stmt_x(env, g, &stmts[i]) {
            Err(m) => {
                proof {
                    lemma_stmts_stop(cx, g0, a, i + 1);
                }
                return Err(m);
            },
            Ok(true) => {
                proof {
                    lemma_stmts_stop(cx, g0, a, i + 1);
                }
                return Ok(true);
            },
            Ok(false) => {},
        }
        i += 1;
    }
    proof {
        assert(a.take(i as int) =~= a);
    }
    Ok(false)
}

fn spend_assign_x(g: &mut Gen)
    ensures
        final(g)@ == (if old(g)@.in_tour { line(old(g)@, "call void @cdc_rt_spend_assign(ptr %rt)"@) } else { old(g)@ }),
{
    if g.in_tour {
        line_x(g, "call void @cdc_rt_spend_assign(ptr %rt)");
    }
}

fn decl_x(env: &Env, g: &mut Gen, name: &String, value: &Expr) -> (r: Result<bool, String>)
    requires
        env.ok(),
        old(g)@.scopes.len() > 0,
    ensures
        same_b(ir_decl(env.cx(), old(g)@, name@, value@), final(g)@, r),
        r is Ok ==> final(g)@.scopes.len() == old(g)@.scopes.len(),
    decreases expr_size(value@), 3int,
{
    match expr_x(env, g, value) {
        Err(m) => Err(m),
        Ok(v) => {
            spend_assign_x(g);
            let k = alloca_x(g, name);
            store_x(g, v.as_str(), k);
            Ok(false)
        },
    }
}

fn assign_x(env: &Env, g: &mut Gen, name: &String, op: AssignOp, value: &Expr) -> (r: Result<bool, String>)
    requires
        env.ok(),
    ensures
        same_b(ir_assign(env.cx(), old(g)@, name@, op, value@), final(g)@, r),
        final(g)@.scopes == old(g)@.scopes,
    decreases expr_size(value@), 3int,
{
    match expr_x(env, g, value) {
        Err(m) => Err(m),
        Ok(rhs) => {
            let replace = match op {
                AssignOp::Replace => true,
                _ => false,
            };
            let v = if replace {
                rhs
            } else {
                match read_x(g, name) {
                    Err(m) => {
                        return Err(m);
                    },
                    Ok(cur) => {
                        let add = match op {
                            AssignOp::Add => true,
                            _ => false,
                        };
                        let mut t = owned(if add { "add i64 " } else { "sub i64 " });
                        push_text(&mut t, cur.as_str());
                        push_text(&mut t, ", ");
                        push_text(&mut t, rhs.as_str());
                        def_x(g, t.as_str())
                    },
                }
            };
            spend_assign_x(g);
            match lookup_slot_x(g, name) {
                None => {
                    let mut m = owned("variable indéfinie ");
                    let q = quoted_x(name.as_str());
                    push_text(&mut m, q.as_str());
                    Err(m)
                },
                Some((k, _)) => {
                    store_x(g, v.as_str(), k);
                    Ok(false)
                },
            }
        },
    }
}

fn labels3_x(g: &mut Gen) -> (r: (u64, u64, u64))
    ensures
        (final(g)@, r.0, r.1, r.2) == labels3(old(g)@),
{
    let a = fresh_x(g);
    let b = fresh_x(g);
    let c = fresh_x(g);
    (a, b, c)
}

fn farm_x(env: &Env, g: &mut Gen, cond: &Expr, body: &Block) -> (r: Result<bool, String>)
    requires
        env.ok(),
        old(g)@.scopes.len() > 0,
    ensures
        same_b(ir_farm(env.cx(), old(g)@, cond@, body@), final(g)@, r),
        r is Ok ==> final(g)@.scopes.len() == old(g)@.scopes.len(),
    decreases expr_size(cond@) + block_size(body@), 2int,
{
    let (c, bo, en) = labels3_x(g);
    br_x(g, c);
    start_x(g, c);
    match cond_x(env, g, cond) {
        Err(m) => Err(m),
        Ok(v) => {
            cond_br_x(g, v.as_str(), bo, en);
            start_x(g, bo);
            match block_x(env, g, body) {
                Err(m) => Err(m),
                Ok(t) => {
                    if !t {
                        br_x(g, c);
                    }
                    start_x(g, en);
                    Ok(false)
                },
            }
        },
    }
}

#[verifier::spinoff_prover]
#[verifier::rlimit(80)]
fn grind_x(env: &Env, g: &mut Gen, var: &String, from: &Expr, to: &Expr, body: &Block) -> (r: Result<bool, String>)
    requires
        env.ok(),
        old(g)@.scopes.len() > 0,
    ensures
        same_b(ir_grind(env.cx(), old(g)@, var@, from@, to@, body@), final(g)@, r),
        r is Ok ==> final(g)@.scopes.len() == old(g)@.scopes.len(),
    decreases expr_size(from@) + expr_size(to@) + block_size(body@), 2int,
{
    match expr_x(env, g, from) {
        Err(m) => Err(m),
        Ok(fv) => match expr_x(env, g, to) {
            Err(m) => Err(m),
            Ok(tv) => {
                let ghost g2 = g@;
                let fresh_scope: Vec<(String, u64)> = Vec::new();
                proof {
                    assert(scope_v(fresh_scope@) =~= Seq::empty());
                }
                g.scopes.push(fresh_scope);
                proof {
                    assert(g@.scopes =~= g2.scopes.push(Seq::empty()));
                }
                let k = alloca_x(g, var);
                store_x(g, fv.as_str(), k);
                let (c, bo, en) = labels3_x(g);
                br_x(g, c);
                start_x(g, c);
                let mut t = owned("load i64, ptr ");
                let sl = slot_x(k);
                push_text(&mut t, sl.as_str());
                let cur = def_x(g, t.as_str());
                let mut t = owned("icmp sle i64 ");
                push_text(&mut t, cur.as_str());
                push_text(&mut t, ", ");
                push_text(&mut t, tv.as_str());
                let le = def_x(g, t.as_str());
                cond_br_x(g, le.as_str(), bo, en);
                start_x(g, bo);
                match block_x(env, g, body) {
                    Err(m) => Err(m),
                    Ok(done) => {
                        if !done {
                            let mut t = owned("load i64, ptr ");
                            let sl = slot_x(k);
                            push_text(&mut t, sl.as_str());
                            let c2 = def_x(g, t.as_str());
                            let mut t = owned("add i64 ");
                            push_text(&mut t, c2.as_str());
                            push_text(&mut t, ", 1");
                            let nx = def_x(g, t.as_str());
                            store_x(g, nx.as_str(), k);
                            br_x(g, c);
                        }
                        start_x(g, en);
                        let ghost g11 = g@;
                        g.scopes.pop();
                        proof {
                            assert(g@.scopes =~= g11.scopes.drop_last());
                        }
                        Ok(false)
                    },
                }
            },
        },
    }
}

fn detect_x(env: &Env, g: &mut Gen, cond: &Expr, th: &Block, el: &Option<Block>) -> (r: Result<bool, String>)
    requires
        env.ok(),
        old(g)@.scopes.len() > 0,
    ensures
        same_b(ir_detect(env.cx(), old(g)@, cond@, th@, match el { Some(b) => Some(b@), None => None }), final(g)@, r),
        r is Ok ==> final(g)@.scopes.len() == old(g)@.scopes.len(),
    decreases expr_size(cond@) + block_size(th@) + match el { Some(b) => block_size(b@), None => 0 }, 2int,
{
    match cond_x(env, g, cond) {
        Err(m) => Err(m),
        Ok(v) => {
            let (lt, le, lm) = labels3_x(g);
            cond_br_x(g, v.as_str(), lt, le);
            start_x(g, lt);
            match block_x(env, g, th) {
                Err(m) => Err(m),
                Ok(t1) => {
                    if !t1 {
                        br_x(g, lm);
                    }
                    start_x(g, le);
                    let t2 = match el {
                        Some(b) => match block_x(env, g, b) {
                            Err(m) => {
                                return Err(m);
                            },
                            Ok(t) => t,
                        },
                        None => false,
                    };
                    if !t2 {
                        br_x(g, lm);
                    }
                    start_x(g, lm);
                    Ok(false)
                },
            }
        },
    }
}

fn stmt_x(env: &Env, g: &mut Gen, s: &Stmt) -> (r: Result<bool, String>)
    requires
        env.ok(),
        old(g)@.scopes.len() > 0,
    ensures
        same_b(ir_stmt(env.cx(), old(g)@, s@), final(g)@, r),
        r is Ok ==> final(g)@.scopes.len() == old(g)@.scopes.len(),
    decreases stmt_size(s@), 3int,
{
    match s {
        Stmt::Loot { name, value, .. } => decl_x(env, g, name, value),
        Stmt::Ban { name, value, .. } => decl_x(env, g, name, value),
        Stmt::Assign { name, op, value, .. } => assign_x(env, g, name, *op, value),
        Stmt::Tour(b) => {
            line_x(g, "call void @cdc_rt_start_turn(ptr %rt)");
            let (si, sb) = (g.in_tour, g.tour_base);
            g.in_tour = true;
            g.tour_base = g.scopes.len();
            match block_x(env, g, b) {
                Err(m) => Err(m),
                Ok(t) => {
                    g.in_tour = si;
                    g.tour_base = sb;
                    Ok(t)
                },
            }
        },
        Stmt::Passer => {
            line_x(g, "call void @cdc_rt_end_turn(ptr %rt)");
            Ok(false)
        },
        Stmt::Farm { cond, body } => farm_x(env, g, cond, body),
        Stmt::Grind { var, from, to, body } => grind_x(env, g, var, from, to, body),
        Stmt::Detect { cond, then_branch, else_branch } => detect_x(env, g, cond, then_branch, else_branch),
        Stmt::Gg(opt) => {
            if g.in_main {
                line_x(g, "br label %exit");
                Ok(true)
            } else {
                match opt {
                    Some(e) => match expr_x(env, g, e) {
                        Err(m) => Err(m),
                        Ok(v) => {
                            let mut t = owned("ret i64 ");
                            push_text(&mut t, v.as_str());
                            line_x(g, t.as_str());
                            Ok(true)
                        },
                    },
                    None => {
                        line_x(g, "ret i64 0");
                        Ok(true)
                    },
                }
            }
        },
        Stmt::Up(e) => match &e.kind {
            ExprKind::Str(txt) => {
                let r = str_ref_x(g, txt);
                if g.in_tour {
                    line_x(g, "call void @cdc_rt_spend_up(ptr %rt)");
                }
                let mut t = owned("call void @cdc_rt_up(ptr %rt, ");
                push_text(&mut t, r.as_str());
                push_text(&mut t, ")");
                line_x(g, t.as_str());
                Ok(false)
            },
            _ => Err(owned("« up » n'accepte qu'un littéral chaîne dans le backend natif")),
        },
        Stmt::Afk(e) => match expr_x(env, g, e) {
            Err(m) => Err(m),
            Ok(v) => {
                let mut t = owned("call void @cdc_rt_afk(ptr %rt, i64 ");
                push_text(&mut t, v.as_str());
                push_text(&mut t, ")");
                line_x(g, t.as_str());
                Ok(false)
            },
        },
        Stmt::Expr(e) => match expr_x(env, g, e) {
            Err(m) => Err(m),
            Ok(_) => Ok(false),
        },
    }
}

// ------------------------------------------------------------------ model: functions and module

/// Parameters after the runtime pointer: `, i64 %p0, i64 %p1…`.
pub open spec fn ir_params(ps: Seq<ParamV>) -> Seq<char>
    decreases ps.len(),
{
    if ps.len() == 0 {
        Seq::empty()
    } else {
        ir_params(ps.drop_last()) + ", i64 %p"@ + digits_of((ps.len() - 1) as nat)
    }
}

/// Each parameter stored in a slot of its own.
pub open spec fn ir_bind(g: GenV, ps: Seq<ParamV>) -> GenV
    decreases ps.len(),
{
    if ps.len() == 0 {
        g
    } else {
        let (g1, k) = alloca(ir_bind(g, ps.drop_last()), ps.last().name);
        line(g1, store("%p"@ + digits_of((ps.len() - 1) as nat), k))
    }
}

/// A bot as a function `@"cdl_bot_NAME"` of the runtime and its arguments; its body runs
/// outside any `tour` and yields 0 when it ends without `gg`.
pub open spec fn ir_bot(cx: Ctx, g: GenV, b: BotV) -> Result<GenV, Seq<char>> {
    let g0 = emit(GenV { scopes: seq![Seq::empty()], in_main: false, in_tour: false, perception: false, ..g },
        "define i64 @\"cdl_bot_"@ + b.name + "\"(ptr %rt"@ + ir_params(b.params) + ") {\nentry:\n"@);
    match ir_block(cx, ir_bind(g0, b.params), b.body) {
        Err(m) => Err(m),
        Ok((g1, t)) => Ok(emit(if t { g1 } else { line(g1, "ret i64 0"@) }, "}\n\n"@)),
    }
}

/// Every bot, in the order of the items.
pub open spec fn ir_bots(cx: Ctx, g: GenV, items: Seq<ItemV>) -> Result<GenV, Seq<char>>
    decreases items.len(),
{
    if items.len() == 0 {
        Ok(g)
    } else {
        match ir_bots(cx, g, items.drop_last()) {
            Err(m) => Err(m),
            Ok(g1) => match items.last() {
                ItemV::Bot(b) => ir_bot(cx, g1, b),
                _ => Ok(g1),
            },
        }
    }
}

/// Seed handed to the runtime: the program's `#seed` when it has one, else the environment's.
pub open spec fn seed_args(seed: Option<u64>) -> Seq<char> {
    match seed {
        Some(s) => "i64 1, i64 "@ + decimal((s as i64) as int),
        None => "i64 0, i64 0"@,
    }
}

/// The entry point: banner, runtime, the `connexion` block, then release of the runtime.
pub open spec fn ir_main(cx: Ctx, g: GenV, b: BlockV) -> Result<GenV, Seq<char>> {
    let g0 = emit(GenV { scopes: seq![Seq::empty()], in_main: true, in_tour: false, perception: false, ..g },
        "define i32 @main() {\nentry:\n  call void @cdc_rt_banner()\n  %rt = call ptr @cdc_rt_new("@
            + seed_args(cx.cfg.seed) + ")\n"@);
    match ir_block(cx, g0, b) {
        Err(m) => Err(m),
        Ok((g1, t)) => Ok(emit(if t { g1 } else { line(g1, "br label %exit"@) },
            "exit:\n  call void @cdc_rt_free(ptr %rt)\n  ret i32 0\n}\n"@)),
    }
}

pub open spec fn hex_digit(d: nat) -> char {
    if d < 10 {
        crate::text::digit_char(d)
    } else if d == 10 { 'A' } else if d == 11 { 'B' } else if d == 12 { 'C' } else if d == 13 { 'D' }
    else if d == 14 { 'E' } else { 'F' }
}

/// Bytes as an IR string body, each written `\XX`.
pub open spec fn escape(b: Seq<u8>) -> Seq<char>
    decreases b.len(),
{
    if b.len() == 0 {
        Seq::empty()
    } else {
        escape(b.drop_last()) + seq!['\\', hex_digit((b.last() / 16) as nat), hex_digit((b.last() % 16) as nat)]
    }
}

/// The string constants `@s0`, `@s1`…, as UTF-8 bytes.
pub open spec fn ir_globals(strs: Seq<Seq<char>>) -> Seq<char>
    decreases strs.len(),
{
    if strs.len() == 0 {
        Seq::empty()
    } else {
        let s = encode_utf8(strs.last());
        ir_globals(strs.drop_last()) + "@s"@ + digits_of((strs.len() - 1) as nat) + " = private unnamed_addr constant ["@
            + digits_of(s.len()) + " x i8] c\""@ + escape(s) + "\"\n"@
    }
}

/// Declarations of the runtime's C interface.
pub open spec fn runtime_decls() -> Seq<char> {
    RUNTIME_DECLS@
}

pub const RUNTIME_DECLS: &'static str = "; cadernislang\n\
declare ptr @cdc_rt_new(i64, i64)\n\
declare void @cdc_rt_free(ptr)\n\
declare void @cdc_rt_banner()\n\
declare void @cdc_rt_start_turn(ptr)\n\
declare void @cdc_rt_end_turn(ptr)\n\
declare i64 @cdc_rt_pa(ptr)\n\
declare i64 @cdc_rt_pm(ptr)\n\
declare i64 @cdc_rt_suspicion(ptr)\n\
declare void @cdc_rt_spend_pa(ptr, i64)\n\
declare void @cdc_rt_spend_assign(ptr)\n\
declare void @cdc_rt_spend_up(ptr)\n\
declare void @cdc_rt_pm_touch(ptr, i64)\n\
declare void @cdc_rt_afk(ptr, i64)\n\
declare void @cdc_rt_up(ptr, ptr, i64)\n\
declare void @cdc_rt_act_bot(ptr, ptr, i64)\n\
declare i64 @cdc_rt_cd_pret(ptr, ptr, i64)\n\
declare void @cdc_rt_guard_cd(ptr, ptr, i64)\n\
declare void @cdc_rt_set_cooldown(ptr, ptr, i64, i64)\n\
declare i64 @cdc_rt_rand(ptr, i64, i64)\n\
declare i64 @cdc_rt_butin(ptr, i64, i64)\n\n";

pub open spec fn gen_init() -> GenV {
    GenV {
        code: runtime_decls(),
        n: 0,
        scopes: Seq::empty(),
        in_tour: false,
        tour_base: 0,
        perception: false,
        in_main: false,
        pm_ids: Seq::empty(),
        strs: Seq::empty(),
    }
}

/// The IR of a program, or why it cannot be compiled natively.
///
/// The pins are checked first, then every bot is generated, then the entry point (the last
/// `connexion`), and the string constants close the module. Costs are the effective ones and
/// tags are those of the patch seed.
pub open spec fn ir_text(p: ProgramV, patch_seed: u64) -> Result<Seq<char>, Seq<char>> {
    let cx = Ctx { items: p.items, cfg: run_config(p, None, Some(patch_seed)) };
    match setup_error(p.items) {
        Some(m) => Err(m),
        None => match ir_bots(cx, gen_init(), p.items) {
            Err(m) => Err(m),
            Ok(g1) => match find_connexion(p.items) {
                None => Err("aucune connexion (point d'entrée)"@),
                Some(b) => match ir_main(cx, g1, b) {
                    Err(m) => Err(m),
                    Ok(g2) => Ok(g2.code + ir_globals(g2.strs)),
                },
            },
        },
    }
}

// ------------------------------------------------------------------ code: functions and module

proof fn lemma_bots_err(cx: Ctx, g: GenV, items: Seq<ItemV>, k: int)
    requires
        0 <= k <= items.len(),
        ir_bots(cx, g, items.take(k)) is Err,
    ensures
        ir_bots(cx, g, items) == ir_bots(cx, g, items.take(k)),
    decreases items.len(),
{
    if k == items.len() {
        assert(items.take(k) =~= items);
    } else {
        assert(items.drop_last().take(k) =~= items.take(k));
        lemma_bots_err(cx, g, items.drop_last(), k);
    }
}

fn bot_x(env: &Env, g: &mut Gen, b: &Bot) -> (r: Result<(), String>)
    requires
        env.ok(),
    ensures
        match r {
            Ok(_) => ir_bot(env.cx(), old(g)@, b@) == Ok::<GenV, Seq<char>>(final(g)@),
            Err(m) => ir_bot(env.cx(), old(g)@, b@) == Err::<GenV, Seq<char>>(m@),
        },
{
    let ghost ps = b@.params;
    g.in_main = false;
    g.in_tour = false;
    g.perception = false;
    let mut sc: Vec<Vec<(String, u64)>> = Vec::new();
    let first: Vec<(String, u64)> = Vec::new();
    sc.push(first);
    g.scopes = sc;
    proof {
        assert(scope_v(first@) =~= Seq::empty());
        assert(g@.scopes =~= seq![Seq::<(Seq<char>, u64)>::empty()]);
    }
    let mut head = owned("define i64 @\"cdl_bot_");
    push_text(&mut head, b.name.as_str());
    push_text(&mut head, "\"(ptr %rt");
    let mut i: usize = 0;
    proof {
        assert(ps.take(0) =~= Seq::<ParamV>::empty());
    }
    while i < b.params.len()
        invariant
            ps == b@.params,
            ps.len() == b.params@.len(),
            i <= ps.len(),
            head@ == "define i64 @\"cdl_bot_"@ + b.name@ + "\"(ptr %rt"@ + ir_params(ps.take(i as int)),
        decreases b.params.len() - i,
    {
        proof {
            assert(ps.take(i + 1).drop_last() =~= ps.take(i as int));
        }
        push_text(&mut head, ", i64 %p");
        let t = nat_text(i as u64);
        push_text(&mut head, t.as_str());
        i += 1;
    }
    proof {
        assert(ps.take(i as int) =~= ps);
    }
    push_text(&mut head, ") {\nentry:\n");
    emit_x(g, head.as_str());
    let ghost g0 = g@;
    let mut j: usize = 0;
    proof {
        assert(ir_bind(g0, ps.take(0)) == g0);
    }
    while j < b.params.len()
        invariant
            ps == b@.params,
            ps.len() == b.params@.len(),
            j <= ps.len(),
            forall|q: int| 0 <= q < ps.len() ==> #[trigger] ps[q] == b.params@[q]@,
            g@ == ir_bind(g0, ps.take(j as int)),
        decreases b.params.len() - j,
    {
        proof {
            assert(ps.take(j + 1).drop_last() =~= ps.take(j as int));
            assert(ps.take(j + 1).last() == ps[j as int]);
        }
        let k = alloca_x(g, &b.params[j].name);
        let mut p = owned("%p");
        let t = nat_text(j as u64);
        push_text(&mut p, t.as_str());
        store_x(g, p.as_str(), k);
        j += 1;
    }
    proof {
        assert(ps.take(j as int) =~= ps);
    }
    match block_x(env, g, &b.body) {
        Err(m) => Err(m),
        Ok(t) => {
            if !t {
                line_x(g, "ret i64 0");
            }
            emit_x(g, "}\n\n");
            Ok(())
        },
    }
}

fn bots_x(env: &Env, g: &mut Gen) -> (r: Result<(), String>)
    requires
        env.ok(),
    ensures
        match r {
            Ok(_) => ir_bots(env.cx(), old(g)@, items_v(env.items@)) == Ok::<GenV, Seq<char>>(final(g)@),
            Err(m) => ir_bots(env.cx(), old(g)@, items_v(env.items@)) == Err::<GenV, Seq<char>>(m@),
        },
{
    let ghost iv = items_v(env.items@);
    let ghost cx = env.cx();
    let ghost g0 = g@;
    let mut i: usize = 0;
    proof {
        assert(iv.take(0) =~= Seq::<ItemV>::empty());
    }
    while i < env.items.len()
        invariant
            env.ok(),
            cx == env.cx(),
            g0 == old(g)@,
            iv == items_v(env.items@),
            i <= env.items@.len(),
            ir_bots(cx, g0, iv.take(i as int)) == Ok::<GenV, Seq<char>>(g@),
        decreases env.items.len() - i,
    {
        proof {
            assert(iv.take(i + 1).drop_last() =~= iv.take(i as int));
            assert(iv.take(i + 1).last() == env.items@[i as int]@);
            assert(iv[i as int] == env.items@[i as int]@);
        }
        match &env.items[i] {
            Item::Bot(b) => match bot_x(env, g, b) {
                Err(m) => {
                    proof {
                        lemma_bots_err(cx, g0, iv, i + 1);
                    }
                    return Err(m);
                },
                Ok(_) => {},
            },
            _ => {},
        }
        i += 1;
    }
    proof {
        assert(iv.take(i as int) =~= iv);
    }
    Ok(())
}

fn main_x(env: &Env, g: &mut Gen, b: &Block) -> (r: Result<(), String>)
    requires
        env.ok(),
    ensures
        match r {
            Ok(_) => ir_main(env.cx(), old(g)@, b@) == Ok::<GenV, Seq<char>>(final(g)@),
            Err(m) => ir_main(env.cx(), old(g)@, b@) == Err::<GenV, Seq<char>>(m@),
        },
{
    g.in_main = true;
    g.in_tour = false;
    g.perception = false;
    let mut sc: Vec<Vec<(String, u64)>> = Vec::new();
    let first: Vec<(String, u64)> = Vec::new();
    sc.push(first);
    g.scopes = sc;
    proof {
        assert(scope_v(first@) =~= Seq::empty());
        assert(g@.scopes =~= seq![Seq::<(Seq<char>, u64)>::empty()]);
    }
    let mut head = owned("define i32 @main() {\nentry:\n  call void @cdc_rt_banner()\n  %rt = call ptr @cdc_rt_new(");
    match env.cfg.seed {
        Some(sd) => {
            push_text(&mut head, "i64 1, i64 ");
            let t = int_text(sd as i64);
            push_text(&mut head, t.as_str());
        },
        None => {
            push_text(&mut head, "i64 0, i64 0");
        },
    }
    push_text(&mut head, ")\n");
    proof {
        assert(head@ =~= "define i32 @main() {\nentry:\n  call void @cdc_rt_banner()\n  %rt = call ptr @cdc_rt_new("@
            + seed_args(env.cfg.seed) + ")\n"@);
    }
    emit_x(g, head.as_str());
    match block_x(env, g, b) {
        Err(m) => Err(m),
        Ok(t) => {
            if !t {
                line_x(g, "br label %exit");
            }
            emit_x(g, "exit:\n  call void @cdc_rt_free(ptr %rt)\n  ret i32 0\n}\n");
            Ok(())
        },
    }
}

fn hex_x(d: u8) -> (c: char)
    requires
        d < 16,
    ensures
        c == hex_digit(d as nat),
{
    if d == 0 { '0' } else if d == 1 { '1' } else if d == 2 { '2' } else if d == 3 { '3' }
    else if d == 4 { '4' } else if d == 5 { '5' } else if d == 6 { '6' } else if d == 7 { '7' }
    else if d == 8 { '8' } else if d == 9 { '9' } else if d == 10 { 'A' } else if d == 11 { 'B' }
    else if d == 12 { 'C' } else if d == 13 { 'D' } else if d == 14 { 'E' } else { 'F' }
}

fn globals_x(strs: &Vec<String>) -> (out: String)
    ensures
        out@ == ir_globals(strings_v(strs@)),
{
    let ghost sv = strings_v(strs@);
    let mut out = String::new();
    let mut i: usize = 0;
    proof {
        assert(sv.take(0) =~= Seq::<Seq<char>>::empty());
    }
    while i < strs.len()
        invariant
            sv == strings_v(strs@),
            sv.len() == strs@.len(),
            i <= sv.len(),
            out@ == ir_globals(sv.take(i as int)),
        decreases strs.len() - i,
    {
        proof {
            assert(sv.take(i + 1).drop_last() =~= sv.take(i as int));
            assert(sv.take(i + 1).last() == strs@[i as int]@);
        }
        let bytes = strs[i].as_str().as_bytes();
        let ghost bv = bytes@;
        push_text(&mut out, "@s");
        let t = nat_text(i as u64);
        push_text(&mut out, t.as_str());
        push_text(&mut out, " = private unnamed_addr constant [");
        let l = nat_text(bytes.len() as u64);
        push_text(&mut out, l.as_str());
        push_text(&mut out, " x i8] c\"");
        let ghost before = out@;
        let mut j: usize = 0;
        proof {
            assert(bv.take(0) =~= Seq::<u8>::empty());
            assert(before =~= before + escape(bv.take(0)));
        }
        while j < bytes.len()
            invariant
                bv == bytes@,
                j <= bv.len(),
                out@ == before + escape(bv.take(j as int)),
            decreases bytes.len() - j,
        {
            proof {
                assert(bv.take(j + 1).drop_last() =~= bv.take(j as int));
                assert(bv.take(j + 1).last() == bv[j as int]);
            }
            let b = bytes[j];
            push_char(&mut out, '\\');
            push_char(&mut out, hex_x(b / 16));
            push_char(&mut out, hex_x(b % 16));
            proof {
                assert(out@ =~= before + escape(bv.take(j + 1)));
            }
            j += 1;
        }
        proof {
            assert(bv.take(j as int) =~= bv);
        }
        push_text(&mut out, "\"\n");
        i += 1;
    }
    proof {
        assert(sv.take(i as int) =~= sv);
    }
    out
}

/// The program as textual LLVM IR for the native back end, with the tags of `patch_seed`
/// (see `ir_text`); the error says what the back end cannot compile.
pub fn emit_ir(program: &Program, patch_seed: u64) -> (r: Result<String, String>)
    requires
        decls_fit(program@.items),
    ensures
        match r {
            Ok(t) => ir_text(program@, patch_seed) == Ok::<Seq<char>, Seq<char>>(t@),
            Err(m) => ir_text(program@, patch_seed) == Err::<Seq<char>, Seq<char>>(m@),
        },
{
    let items = &program.items;
    proof {
        assert(program@.items == items_v(items@));
        assert(program@.pragmas == program.pragmas@.map_values(|p: crate::ast::Pragma| p@));
    }
    let mut cfg = pragma_config_x(&program.pragmas);
    cfg.patch_seed = patch_seed;
    let tags = match tags_x(items, patch_seed) {
        Err(m) => {
            return Err(m);
        },
        Ok(t) => t,
    };
    let costs = effective_costs(program, &cfg);
    let env = Env { items, costs, tags, cfg };
    let mut g = Gen {
        code: owned(RUNTIME_DECLS),
        n: 0,
        scopes: Vec::new(),
        in_tour: false,
        tour_base: 0,
        perception: false,
        in_main: false,
        pm_ids: Vec::new(),
        strs: Vec::new(),
    };
    proof {
        assert(g@.scopes =~= Seq::empty());
        assert(g@.pm_ids =~= Seq::empty());
        assert(g@.strs =~= Seq::empty());
        assert(g@ == gen_init());
        assert(env.cx() == Ctx { items: program@.items, cfg: run_config(program@, None, Some(patch_seed)) });
    }
    match bots_x(&env, &mut g) {
        Err(m) => {
            return Err(m);
        },
        Ok(_) => {},
    }
    let conn = connexion_x(items);
    match conn {
        None => Err(owned("aucune connexion (point d'entrée)")),
        Some(b) => match main_x(&env, &mut g, b) {
            Err(m) => Err(m),
            Ok(_) => {
                let tail = globals_x(&g.strs);
                let mut out = g.code;
                push_text(&mut out, tail.as_str());
                Ok(out)
            },
        },
    }
}

} // verus!
