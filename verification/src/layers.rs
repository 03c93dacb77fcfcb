//! The two layers of a program. Computation (declarations, arithmetic, conditions, loops,
//! assignments, `passer`, the builtins) only spends the AP/MP budget; the game actions (bot
//! casts, `afk`, `up`) are what the anti-bot observes. This module proves that computation
//! alone never moves the suspicion gauge nor anything else the anti-bot sees.

use vstd::prelude::*;
use crate::ast::{
    block_size, expr_size, exprs_size, fields_size, lemma_exprs_size_index, stmt_size, stmts_size, BlockV,
    ExprKindV, ExprV, ProgramV, StmtV,
};
use crate::interp::{
    decl_stmt, eval, eval_args, eval_call, eval_cond, eval_fields, exec_block, exec_stmt, exec_stmts,
    farm_loop, find_connexion, grind_loop, init_rt, run_config, run_spec, setup_error, Ctx, Flow, Mode, St,
    RunErrorV, ValueV,
};
use crate::runtime::RuntimeView;
use crate::sema::is_builtin;

verus! {

// ------------------------------------------------------------------ the computation layer

/// An expression of the computation layer: it casts no bot (only the builtins are called).
pub open spec fn quiet_expr(e: ExprV) -> bool
    decreases expr_size(e), 1int,
{
    match e.kind {
        ExprKindV::Unary(_, x) => quiet_expr(*x),
        ExprKindV::Binary(_, l, r) => quiet_expr(*l) && quiet_expr(*r),
        ExprKindV::Call(name, args) => is_builtin(name) && quiet_exprs(args),
        ExprKindV::Struct(_, fields) => quiet_fields(fields),
        _ => true,
    }
}

pub open spec fn quiet_exprs(s: Seq<ExprV>) -> bool
    decreases exprs_size(s), 0int,
{
    if s.len() == 0 { true } else { quiet_exprs(s.drop_last()) && quiet_expr(s.last()) }
}

pub open spec fn quiet_fields(s: Seq<(Seq<char>, ExprV)>) -> bool
    decreases fields_size(s), 0int,
{
    if s.len() == 0 { true } else { quiet_fields(s.drop_last()) && quiet_expr(s.last().1) }
}

/// Statements of the computation layer: no `up`, no `afk`, and quiet expressions throughout.
pub open spec fn quiet_stmts(s: Seq<StmtV>) -> bool
    decreases stmts_size(s), 0int,
{
    if s.len() == 0 { true } else { quiet_stmts(s.drop_last()) && quiet_stmt(s.last()) }
}

pub open spec fn quiet_stmt(s: StmtV) -> bool
    decreases stmt_size(s), 1int,
{
    match s {
        StmtV::Loot { value, .. } => quiet_expr(value),
        StmtV::Ban { value, .. } => quiet_expr(value),
        StmtV::Assign { value, .. } => quiet_expr(value),
        StmtV::Tour(b) => quiet_stmts(b.stmts),
        StmtV::Passer => true,
        StmtV::Farm { cond, body } => quiet_expr(cond) && quiet_stmts(body.stmts),
        StmtV::Grind { from, to, body, .. } => quiet_expr(from) && quiet_expr(to) && quiet_stmts(body.stmts),
        StmtV::Detect { cond, then_branch, else_branch } => quiet_expr(cond) && quiet_stmts(then_branch.stmts)
            && match else_branch {
            Some(b) => quiet_stmts(b.stmts),
            None => true,
        },
        StmtV::Gg(opt) => match opt {
            Some(e) => quiet_expr(e),
            None => true,
        },
        StmtV::Up(_) => false,
        StmtV::Afk(_) => false,
        StmtV::Expr(e) => quiet_expr(e),
    }
}

/// What the anti-bot sees of a runtime is the same in both: the gauge, the window of
/// actions, the clocks, the cooldowns and the messages shown.
pub open spec fn unobserved(a: RuntimeView, b: RuntimeView) -> bool {
    &&& a.suspicion == b.suspicion
    &&& a.window == b.window
    &&& a.clock_ms == b.clock_ms
    &&& a.pending_ms == b.pending_ms
    &&& a.cooldowns == b.cooldowns
    &&& a.out == b.out
}

/// A run step of the computation layer: nothing observed changed and no ban was raised.
pub open spec fn calm<T>(before: St, after: (St, Result<T, RunErrorV>)) -> bool {
    &&& unobserved(after.0.rt, before.rt)
    &&& after.1 != Err::<T, RunErrorV>(RunErrorV::Banni)
}

proof fn lemma_quiet_exprs_index(s: Seq<ExprV>, i: int)
    requires
        quiet_exprs(s),
        0 <= i < s.len(),
    ensures
        quiet_expr(s[i]),
    decreases s.len(),
{
    if i < s.len() - 1 {
        lemma_quiet_exprs_index(s.drop_last(), i);
        assert(s.drop_last()[i] == s[i]);
    }
}

// ------------------------------------------------------------------ proofs

proof fn lemma_calm_eval(ctx: Ctx, d: Seq<i64>, mode: Mode, st: St, e: ExprV, f: nat)
    requires
        quiet_expr(e),
    ensures
        calm(st, eval(ctx, d, mode, st, e, f)),
    decreases f, expr_size(e), 1int,
{
    match e.kind {
        ExprKindV::Unary(_, x) => {
            lemma_calm_eval(ctx, d, mode, st, *x, f);
        },
        ExprKindV::Binary(_, l, r) => {
            lemma_calm_eval(ctx, d, mode, st, *l, f);
            let s1 = eval(ctx, d, mode, st, *l, f).0;
            lemma_calm_eval(ctx, d, mode, s1, *r, f);
        },
        ExprKindV::Call(name, args) => {
            lemma_calm_call(ctx, d, mode, st, name, args, f);
        },
        ExprKindV::Struct(_, fields) => {
            lemma_calm_fields(ctx, d, mode, st, fields, f);
        },
        _ => {},
    }
}

proof fn lemma_calm_fields(ctx: Ctx, d: Seq<i64>, mode: Mode, st: St, s: Seq<(Seq<char>, ExprV)>, f: nat)
    requires
        quiet_fields(s),
    ensures
        calm(st, eval_fields(ctx, d, mode, st, s, f)),
    decreases f, fields_size(s), 0int,
{
    if s.len() > 0 {
        lemma_calm_fields(ctx, d, mode, st, s.drop_last(), f);
        let s1 = eval_fields(ctx, d, mode, st, s.drop_last(), f).0;
        lemma_calm_eval(ctx, d, mode, s1, s.last().1, f);
    }
}

proof fn lemma_calm_call(ctx: Ctx, d: Seq<i64>, mode: Mode, st: St, name: Seq<char>, args: Seq<ExprV>, f: nat)
    requires
        is_builtin(name),
        quiet_exprs(args),
    ensures
        calm(st, eval_call(ctx, d, mode, st, name, args, f)),
    decreases f, exprs_size(args), 2int,
{
    if (name == "rand"@ || name == "butin"@) && args.len() >= 1 {
        lemma_exprs_size_index(args, 0);
        lemma_quiet_exprs_index(args, 0);
        lemma_calm_eval(ctx, d, mode, st, args[0], f);
        if args.len() >= 2 {
            lemma_exprs_size_index(args, 1);
            lemma_quiet_exprs_index(args, 1);
            let s1 = eval(ctx, d, mode, st, args[0], f).0;
            lemma_calm_eval(ctx, d, mode, s1, args[1], f);
        }
    }
}

proof fn lemma_calm_cond(ctx: Ctx, d: Seq<i64>, mode: Mode, st: St, e: ExprV, f: nat)
    requires
        quiet_expr(e),
    ensures
        calm(st, eval_cond(ctx, d, mode, st, e, f)),
    decreases f, expr_size(e), 2int,
{
    lemma_calm_eval(ctx, d, Mode { perception: true, ..mode }, st, e, f);
}

proof fn lemma_calm_block(ctx: Ctx, d: Seq<i64>, mode: Mode, st: St, b: BlockV, f: nat)
    requires
        quiet_stmts(b.stmts),
    ensures
        calm(st, exec_block(ctx, d, mode, st, b, f)),
    decreases f, block_size(b), 0int,
{
    lemma_calm_stmts(ctx, d, mode, St { env: st.env.push(Map::empty()), ..st }, b.stmts, f);
}

proof fn lemma_calm_stmts(ctx: Ctx, d: Seq<i64>, mode: Mode, st: St, s: Seq<StmtV>, f: nat)
    requires
        quiet_stmts(s),
    ensures
        calm(st, exec_stmts(ctx, d, mode, st, s, f)),
    decreases f, stmts_size(s), 0int,
{
    if s.len() > 0 {
        lemma_calm_stmts(ctx, d, mode, st, s.drop_last(), f);
        let s1 = exec_stmts(ctx, d, mode, st, s.drop_last(), f).0;
        lemma_calm_stmt(ctx, d, mode, s1, s.last(), f);
    }
}

proof fn lemma_calm_decl(ctx: Ctx, d: Seq<i64>, mode: Mode, st: St, name: Seq<char>, value: ExprV, f: nat)
    requires
        quiet_expr(value),
    ensures
        calm(st, decl_stmt(ctx, d, mode, st, name, value, f)),
    decreases f, expr_size(value) + 1, 0int,
{
    lemma_calm_eval(ctx, d, mode, st, value, f);
}

proof fn lemma_calm_farm(ctx: Ctx, d: Seq<i64>, mode: Mode, st: St, cond: ExprV, body: BlockV, f: nat)
    requires
        quiet_expr(cond),
        quiet_stmts(body.stmts),
    ensures
        calm(st, farm_loop(ctx, d, mode, st, cond, body, f)),
    decreases f, expr_size(cond) + block_size(body), 0int,
{
    if f > 0 {
        let g = (f - 1) as nat;
        lemma_calm_cond(ctx, d, mode, st, cond, g);
        let s1 = eval_cond(ctx, d, mode, st, cond, g).0;
        lemma_calm_block(ctx, d, mode, s1, body, g);
        let s2 = exec_block(ctx, d, mode, s1, body, g).0;
        lemma_calm_farm(ctx, d, mode, s2, cond, body, g);
    }
}

proof fn lemma_calm_grind(ctx: Ctx, d: Seq<i64>, mode: Mode, st: St, var: Seq<char>, i: i64, hi: i64, body: BlockV, f: nat)
    requires
        quiet_stmts(body.stmts),
    ensures
        calm(st, grind_loop(ctx, d, mode, st, var, i, hi, body, f)),
    decreases f, block_size(body), 0int,
{
    if i <= hi && f > 0 {
        let g = (f - 1) as nat;
        let scope = Map::<Seq<char>, ValueV>::empty().insert(var, ValueV::Int(i));
        let s0 = St { env: st.env.push(scope), ..st };
        lemma_calm_block(ctx, d, mode, s0, body, g);
        let s1 = exec_block(ctx, d, mode, s0, body, g).0;
        let s2 = St { env: s1.env.drop_last(), ..s1 };
        if i < hi {
            lemma_calm_grind(ctx, d, mode, s2, var, (i + 1) as i64, hi, body, g);
        }
    }
}

proof fn lemma_calm_stmt(ctx: Ctx, d: Seq<i64>, mode: Mode, st: St, s: StmtV, f: nat)
    requires
        quiet_stmt(s),
    ensures
        calm(st, exec_stmt(ctx, d, mode, st, s, f)),
    decreases f, stmt_size(s), 3int,
{
    match s {
        StmtV::Loot { name, value, .. } => {
            lemma_calm_decl(ctx, d, mode, st, name, value, f);
        },
        StmtV::Ban { name, value, .. } => {
            lemma_calm_decl(ctx, d, mode, st, name, value, f);
        },
        StmtV::Assign { value, .. } => {
            lemma_calm_eval(ctx, d, mode, st, value, f);
        },
        StmtV::Tour(b) => {
            let rt = RuntimeView { pa: st.rt.cfg.max_pa, pm: st.rt.cfg.max_pm, touched: Seq::empty(), ..st.rt };
            let m = Mode { in_tour: true, tour_base: st.env.len() as usize, perception: mode.perception };
            lemma_calm_block(ctx, d, m, St { rt, ..st }, b, f);
        },
        StmtV::Farm { cond, body } => {
            lemma_calm_farm(ctx, d, mode, st, cond, body, f);
        },
        StmtV::Grind { var, from, to, body } => {
            lemma_calm_eval(ctx, d, mode, st, from, f);
            let s1 = eval(ctx, d, mode, st, from, f).0;
            lemma_calm_eval(ctx, d, mode, s1, to, f);
            let r2 = eval(ctx, d, mode, s1, to, f);
            let ra = eval(ctx, d, mode, st, from, f).1;
            match (ra, r2.1) {
                (Ok(a), Ok(b)) => match (crate::interp::as_int(a), crate::interp::as_int(b)) {
                    (Ok(lo), Ok(hi)) => {
                        lemma_calm_grind(ctx, d, mode, r2.0, var, lo, hi, body, f);
                    },
                    _ => {},
                },
                _ => {},
            }
        },
        StmtV::Detect { cond, then_branch, else_branch } => {
            lemma_calm_cond(ctx, d, mode, st, cond, f);
            let s1 = eval_cond(ctx, d, mode, st, cond, f).0;
            lemma_calm_block(ctx, d, mode, s1, then_branch, f);
            match else_branch {
                Some(b) => {
                    lemma_calm_block(ctx, d, mode, s1, b, f);
                },
                None => {},
            }
        },
        StmtV::Gg(Some(e)) => {
            lemma_calm_eval(ctx, d, mode, st, e, f);
        },
        StmtV::Expr(e) => {
            lemma_calm_eval(ctx, d, mode, st, e, f);
        },
        _ => {},
    }
}

// ------------------------------------------------------------------ laws

/// Computation is invisible to the anti-bot: running statements without any game action
/// (no bot cast, no `afk`, no `up`) leaves the suspicion gauge, the window of actions, the
/// clocks, the cooldowns and the shown messages as they were, and never ends in a ban.
pub proof fn lemma_computation_unobserved(ctx: Ctx, d: Seq<i64>, mode: Mode, st: St, s: Seq<StmtV>, f: nat)
    requires
        quiet_stmts(s),
    ensures
        unobserved(exec_stmts(ctx, d, mode, st, s, f).0.rt, st.rt),
        exec_stmts(ctx, d, mode, st, s, f).1 != Err::<Flow, RunErrorV>(RunErrorV::Banni),
{
    lemma_calm_stmts(ctx, d, mode, st, s, f);
}

/// A program whose entry point only computes is never banned: its suspicion stays at 0 and
/// it shows nothing, whatever the draws.
pub proof fn lemma_pure_program_never_banned(p: ProgramV, seed: Option<u64>, patch_seed: Option<u64>, d: Seq<i64>)
    requires
        find_connexion(p.items) matches Some(b) && quiet_stmts(b.stmts),
    ensures
        run_spec(p, seed, patch_seed, d).0.rt.suspicion == 0,
        run_spec(p, seed, patch_seed, d).0.rt.out.len() == 0,
        run_spec(p, seed, patch_seed, d).1 != Err::<(), RunErrorV>(RunErrorV::Banni),
{
    let cfg = run_config(p, seed, patch_seed);
    let st = St { rt: init_rt(cfg), env: Seq::empty(), pm_ids: Seq::empty(), rolls: Seq::empty() };
    if setup_error(p.items) is None {
        let b = find_connexion(p.items)->0;
        let ctx = Ctx { items: p.items, cfg };
        let mode = Mode { in_tour: false, tour_base: 0, perception: false };
        lemma_calm_block(ctx, d, mode, st, b, crate::interp::run_fuel());
    }
}

} // verus!
