//! What the static check reports of budgets: `E-PA` and `E-PM` come exactly from the
//! `tour`s whose cost can be computed and goes over the budget.

use vstd::prelude::*;
use crate::ast::{
    block_size, expr_size, exprs_size, fields_size, stmt_size, stmts_size, BlockV, ExprKindV, ExprV, ItemV,
    PersoV, ProgramV, StmtV,
};
use crate::config::Config;
use crate::sema::{
    budget_errs, check_block, check_errors, check_stmt, check_stmts, cost_map, expect_kamas_all, field_name_errs,
    fields_infer, infer, infer_all, item_errs, pin_errs, pragma_config, stmts_dynamic, stmts_pa, tour_pm,
    SemaErrorV, VarInfo,
};

verus! {

/// No diagnostic of the list carries a code.
pub open spec fn uncoded(e: Seq<SemaErrorV>) -> bool {
    forall|i: int| 0 <= i < e.len() ==> (#[trigger] e[i]).code is None
}

/// Some diagnostic of the list carries the code `c`.
pub open spec fn has_code(e: Seq<SemaErrorV>, c: Seq<char>) -> bool {
    exists|i: int| 0 <= i < e.len() && (#[trigger] e[i]).code == Some(c)
}

/// Some `tour` of the statements, at any depth (loops, `detect` branches and `tour`
/// bodies included), has a body for which `p` holds.
pub open spec fn stmts_some_tour(s: Seq<StmtV>, p: spec_fn(Seq<StmtV>) -> bool) -> bool
    decreases stmts_size(s),
{
    s.len() > 0 && (stmts_some_tour(s.drop_last(), p) || stmt_some_tour(s.last(), p))
}

pub open spec fn stmt_some_tour(s: StmtV, p: spec_fn(Seq<StmtV>) -> bool) -> bool
    decreases stmt_size(s),
{
    match s {
        StmtV::Tour(b) => p(b.stmts) || stmts_some_tour(b.stmts, p),
        StmtV::Farm { body, .. } => stmts_some_tour(body.stmts, p),
        StmtV::Grind { body, .. } => stmts_some_tour(body.stmts, p),
        StmtV::Detect { then_branch, else_branch, .. } => stmts_some_tour(then_branch.stmts, p) || match else_branch {
            Some(b) => stmts_some_tour(b.stmts, p),
            None => false,
        },
        _ => false,
    }
}

/// Some `tour` of a bot body or a `connexion` block has a body for which `p` holds.
pub open spec fn items_some_tour(items: Seq<ItemV>, p: spec_fn(Seq<StmtV>) -> bool) -> bool
    decreases items.len(),
{
    items.len() > 0 && (items_some_tour(items.drop_last(), p) || match items.last() {
        ItemV::Bot(b) => stmts_some_tour(b.body.stmts, p),
        ItemV::Connexion(blk) => stmts_some_tour(blk.stmts, p),
        _ => false,
    })
}

/// A `tour` body whose cost can be computed (no loop, no nested `tour`) and whose most
/// expensive path asks for more AP than `max_pa`.
pub open spec fn greedy_pa(items: Seq<ItemV>, cfg: Config) -> spec_fn(Seq<StmtV>) -> bool {
    |body: Seq<StmtV>| !stmts_dynamic(body) && stmts_pa(cost_map(items, cfg), cfg, body) > cfg.max_pa
}

/// A `tour` body whose cost can be computed and which reads more distinct outside
/// variables than `max_pm`.
pub open spec fn greedy_pm(cfg: Config) -> spec_fn(Seq<StmtV>) -> bool {
    |body: Seq<StmtV>| !stmts_dynamic(body) && tour_pm(body).len() as i64 > cfg.max_pm
}

proof fn lemma_has_code_concat(a: Seq<SemaErrorV>, b: Seq<SemaErrorV>, c: Seq<char>)
    ensures
        has_code(a + b, c) <==> (has_code(a, c) || has_code(b, c)),
        uncoded(a) && uncoded(b) ==> uncoded(a + b),
{
    if has_code(a + b, c) {
        let i = choose|i: int| 0 <= i < (a + b).len() && (#[trigger] (a + b)[i]).code == Some(c);
        if i < a.len() {
            assert((a + b)[i] == a[i]);
        } else {
            assert((a + b)[i] == b[i - a.len()]);
        }
    }
    if has_code(a, c) {
        let i = choose|i: int| 0 <= i < a.len() && (#[trigger] a[i]).code == Some(c);
        assert((a + b)[i] == a[i]);
    }
    if has_code(b, c) {
        let i = choose|i: int| 0 <= i < b.len() && (#[trigger] b[i]).code == Some(c);
        assert((a + b)[i + a.len()] == b[i]);
    }
    if uncoded(a) && uncoded(b) {
        assert forall|i: int| 0 <= i < (a + b).len() implies (#[trigger] (a + b)[i]).code is None by {
            if i < a.len() {
                assert((a + b)[i] == a[i]);
            } else {
                assert((a + b)[i] == b[i - a.len()]);
            }
        }
    }
}

proof fn lemma_uncoded_one(e: SemaErrorV)
    requires
        e.code is None,
    ensures
        uncoded(seq![e]),
{
}

// ------------------------------------------------------------------ expression diagnostics

proof fn lemma_infer_uncoded(items: Seq<ItemV>, sc: Seq<Map<Seq<char>, VarInfo>>, e: ExprV)
    ensures
        uncoded(infer(items, sc, e).0),
    decreases expr_size(e),
{
    let c = Seq::<char>::empty();
    match e.kind {
        ExprKindV::Unary(op, x) => {
            lemma_infer_uncoded(items, sc, *x);
            let r = infer(items, sc, *x);
            lemma_has_code_concat(r.0, crate::sema::require(r.1, crate::sema::Ty::Kamas, x.line, x.col, "négation sur non-kamas"@), c);
            lemma_has_code_concat(r.0, crate::sema::require(r.1, crate::sema::Ty::Flag, x.line, x.col, "« pas » sur non-flag"@), c);
        },
        ExprKindV::Binary(op, l, r) => {
            lemma_infer_uncoded(items, sc, *l);
            lemma_infer_uncoded(items, sc, *r);
            let a = infer(items, sc, *l).0;
            let b = infer(items, sc, *r).0;
            lemma_has_code_concat(a, b, c);
            assert(uncoded(infer(items, sc, e).0)) by {
                assert forall|i: int| 0 <= i < infer(items, sc, e).0.len() implies (#[trigger] infer(items, sc, e).0[i]).code is None by {
                    let t = infer(items, sc, e).0;
                    if i >= (a + b).len() {
                        assert(t.subrange((a + b).len() as int, t.len() as int)[i - (a + b).len()] == t[i]);
                    } else {
                        assert(t[i] == (a + b)[i]);
                    }
                }
            }
        },
        ExprKindV::Call(name, args) => {
            lemma_expect_kamas_all_uncoded(items, sc, args);
            lemma_infer_all_uncoded(items, sc, args);
            let t = infer(items, sc, e).0;
            assert forall|i: int| 0 <= i < t.len() implies (#[trigger] t[i]).code is None by {
                if name == "rand"@ || name == "butin"@ {
                    let h: Seq<SemaErrorV> = if args.len() != 2 {
                        seq![crate::sema::diag(crate::sema::quoted(name) + " attend 2 arguments"@, e.line, e.col)]
                    } else {
                        seq![]
                    };
                    let k = expect_kamas_all(items, sc, args);
                    assert(t == h + k);
                    if i < h.len() {
                        assert(t[i] == h[i]);
                    } else {
                        assert(t[i] == k[i - h.len()]);
                    }
                } else if name == "cd_pret"@ {
                } else {
                    match crate::sema::find_bot(items, name) {
                        None => {},
                        Some(b) => {
                            let h: Seq<SemaErrorV> = if args.len() != b.params.len() {
                                seq![crate::sema::diag(crate::sema::quoted(name) + " attend "@ + crate::text::digits_of(b.params.len()) + " argument(s), reçu "@ + crate::text::digits_of(args.len()), e.line, e.col)]
                            } else {
                                seq![]
                            };
                            let k = infer_all(items, sc, args);
                            assert(t == h + k);
                            if i < h.len() {
                                assert(t[i] == h[i]);
                            } else {
                                assert(t[i] == k[i - h.len()]);
                            }
                        },
                    }
                }
            }
        },
        ExprKindV::Struct(ty, fields) => {
            lemma_fields_infer_uncoded(items, sc, fields);
            let t = infer(items, sc, e).0;
            let h = match crate::sema::find_perso(items, ty) {
                Some(p) => field_name_errs(p, ty, fields, e.line, e.col),
                None => seq![crate::sema::diag("perso "@ + crate::sema::quoted(ty) + " inconnu"@, e.line, e.col)],
            };
            match crate::sema::find_perso(items, ty) {
                Some(p) => lemma_field_name_errs_uncoded(p, ty, fields, e.line, e.col),
                None => {},
            }
            let k = fields_infer(items, sc, fields);
            lemma_has_code_concat(h, k, c);
            assert(t == h + k);
        },
        _ => {},
    }
}

proof fn lemma_infer_all_uncoded(items: Seq<ItemV>, sc: Seq<Map<Seq<char>, VarInfo>>, s: Seq<ExprV>)
    ensures
        uncoded(infer_all(items, sc, s)),
    decreases exprs_size(s),
{
    if s.len() > 0 {
        lemma_infer_all_uncoded(items, sc, s.drop_last());
        lemma_infer_uncoded(items, sc, s.last());
        lemma_has_code_concat(infer_all(items, sc, s.drop_last()), infer(items, sc, s.last()).0, Seq::empty());
    }
}

proof fn lemma_expect_kamas_all_uncoded(items: Seq<ItemV>, sc: Seq<Map<Seq<char>, VarInfo>>, s: Seq<ExprV>)
    ensures
        uncoded(expect_kamas_all(items, sc, s)),
    decreases exprs_size(s),
{
    if s.len() > 0 {
        lemma_expect_kamas_all_uncoded(items, sc, s.drop_last());
        lemma_infer_uncoded(items, sc, s.last());
        let a = expect_kamas_all(items, sc, s.drop_last());
        let b = infer(items, sc, s.last()).0;
        let k = crate::sema::kamas_check(infer(items, sc, s.last()).1, s.last().line, s.last().col);
        lemma_has_code_concat(a, b, Seq::empty());
        lemma_has_code_concat(a + b, k, Seq::empty());
    }
}

proof fn lemma_fields_infer_uncoded(items: Seq<ItemV>, sc: Seq<Map<Seq<char>, VarInfo>>, s: Seq<(Seq<char>, ExprV)>)
    ensures
        uncoded(fields_infer(items, sc, s)),
    decreases fields_size(s),
{
    if s.len() > 0 {
        lemma_fields_infer_uncoded(items, sc, s.drop_last());
        lemma_infer_uncoded(items, sc, s.last().1);
        lemma_has_code_concat(fields_infer(items, sc, s.drop_last()), infer(items, sc, s.last().1).0, Seq::empty());
    }
}

proof fn lemma_field_name_errs_uncoded(p: PersoV, ty: Seq<char>, s: Seq<(Seq<char>, ExprV)>, line: u32, col: u32)
    ensures
        uncoded(field_name_errs(p, ty, s, line, col)),
    decreases s.len(),
{
    if s.len() > 0 {
        lemma_field_name_errs_uncoded(p, ty, s.drop_last(), line, col);
        let h: Seq<SemaErrorV> = if crate::sema::has_field(p, s.last().0) {
            seq![]
        } else {
            seq![crate::sema::diag("champ "@ + crate::sema::quoted(s.last().0) + " inconnu dans perso "@ + crate::sema::quoted(ty), line, col)]
        };
        lemma_has_code_concat(field_name_errs(p, ty, s.drop_last(), line, col), h, Seq::empty());
    }
}

// ------------------------------------------------------------------ statements

/// What `budget_errs` reports with the code `c` is what `p` says of the `tour` body.
pub open spec fn code_matches(items: Seq<ItemV>, cfg: Config, c: Seq<char>, p: spec_fn(Seq<StmtV>) -> bool) -> bool {
    forall|body: Seq<StmtV>| #[trigger] has_code(budget_errs(items, cfg, body), c) == p(body)
}

proof fn lemma_expr_diags(items: Seq<ItemV>, sc: Seq<Map<Seq<char>, VarInfo>>, e: ExprV, c: Seq<char>)
    ensures
        !has_code(infer(items, sc, e).0, c),
        !has_code(crate::sema::expect_kamas(items, sc, e), c),
        !has_code(crate::sema::expect_cond(items, sc, e), c),
{
    lemma_infer_uncoded(items, sc, e);
    let r = infer(items, sc, e);
    let k = crate::sema::kamas_check(r.1, e.line, e.col);
    lemma_has_code_concat(r.0, k, c);
    let t = r.1;
    let q: Seq<SemaErrorV> = if t != crate::sema::Ty::Flag && t != crate::sema::Ty::Kamas && t != crate::sema::Ty::Unknown {
        seq![crate::sema::diag("condition non booléenne"@, e.line, e.col)]
    } else {
        seq![]
    };
    lemma_has_code_concat(r.0, q, c);
    assert(crate::sema::expect_cond(items, sc, e) == r.0 + q);
}

proof fn lemma_check_stmts_code(
    items: Seq<ItemV>,
    cfg: Config,
    sc: Seq<Map<Seq<char>, VarInfo>>,
    s: Seq<StmtV>,
    c: Seq<char>,
    p: spec_fn(Seq<StmtV>) -> bool,
)
    requires
        code_matches(items, cfg, c, p),
    ensures
        has_code(check_stmts(items, cfg, sc, s).1, c) == stmts_some_tour(s, p),
    decreases stmts_size(s), 0nat,
{
    if s.len() > 0 {
        let a = check_stmts(items, cfg, sc, s.drop_last());
        lemma_check_stmts_code(items, cfg, sc, s.drop_last(), c, p);
        lemma_check_stmt_code(items, cfg, a.0, s.last(), c, p);
        lemma_has_code_concat(a.1, check_stmt(items, cfg, a.0, s.last()).1, c);
    }
}

proof fn lemma_check_block_code(
    items: Seq<ItemV>,
    cfg: Config,
    sc: Seq<Map<Seq<char>, VarInfo>>,
    b: BlockV,
    c: Seq<char>,
    p: spec_fn(Seq<StmtV>) -> bool,
)
    requires
        code_matches(items, cfg, c, p),
    ensures
        has_code(check_block(items, cfg, sc, b), c) == stmts_some_tour(b.stmts, p),
    decreases stmts_size(b.stmts), 1nat,
{
    lemma_check_stmts_code(items, cfg, sc.push(Map::empty()), b.stmts, c, p);
}

proof fn lemma_check_stmt_code(
    items: Seq<ItemV>,
    cfg: Config,
    sc: Seq<Map<Seq<char>, VarInfo>>,
    s: StmtV,
    c: Seq<char>,
    p: spec_fn(Seq<StmtV>) -> bool,
)
    requires
        code_matches(items, cfg, c, p),
    ensures
        has_code(check_stmt(items, cfg, sc, s).1, c) == stmt_some_tour(s, p),
    decreases stmt_size(s), 0nat,
{
    let e = Seq::<SemaErrorV>::empty();
    match s {
        StmtV::Loot { value, .. } => lemma_expr_diags(items, sc, value, c),
        StmtV::Ban { value, .. } => lemma_expr_diags(items, sc, value, c),
        StmtV::Assign { name, value, line, col, .. } => {
            lemma_expr_diags(items, sc, value, c);
            let target: Seq<SemaErrorV> = match crate::sema::lookup(sc, name) {
                None => seq![crate::sema::diag("variable indéfinie "@ + crate::sema::quoted(name), line, col)],
                Some(vi) => if vi.is_const {
                    seq![crate::sema::diag("affectation d'une constante "@ + crate::sema::quoted(name), line, col)]
                } else {
                    seq![]
                },
            };
            lemma_has_code_concat(target, infer(items, sc, value).0, c);
        },
        StmtV::Tour(b) => {
            lemma_check_block_code(items, cfg, sc, b, c, p);
            assert(has_code(budget_errs(items, cfg, b.stmts), c) == p(b.stmts));
            lemma_has_code_concat(budget_errs(items, cfg, b.stmts), check_block(items, cfg, sc, b), c);
        },
        StmtV::Passer => {},
        StmtV::Farm { cond, body } => {
            lemma_expr_diags(items, sc, cond, c);
            lemma_check_block_code(items, cfg, sc, body, c, p);
            lemma_has_code_concat(crate::sema::expect_cond(items, sc, cond), check_block(items, cfg, sc, body), c);
        },
        StmtV::Grind { var, from, to, body } => {
            lemma_expr_diags(items, sc, from, c);
            lemma_expr_diags(items, sc, to, c);
            let sc2 = sc.push(Map::empty().insert(var, VarInfo { ty: crate::sema::Ty::Kamas, is_const: true }));
            lemma_check_stmts_code(items, cfg, sc2, body.stmts, c, p);
            let a = crate::sema::expect_kamas(items, sc, from);
            let b2 = crate::sema::expect_kamas(items, sc, to);
            lemma_has_code_concat(a, b2, c);
            lemma_has_code_concat(a + b2, check_stmts(items, cfg, sc2, body.stmts).1, c);
        },
        StmtV::Detect { cond, then_branch, else_branch } => {
            lemma_expr_diags(items, sc, cond, c);
            lemma_check_block_code(items, cfg, sc, then_branch, c, p);
            let a = crate::sema::expect_cond(items, sc, cond);
            let t = check_block(items, cfg, sc, then_branch);
            let el: Seq<SemaErrorV> = match else_branch {
                Some(b) => check_block(items, cfg, sc, b),
                None => seq![],
            };
            match else_branch {
                Some(b) => lemma_check_block_code(items, cfg, sc, b, c, p),
                None => {},
            }
            lemma_has_code_concat(a, t, c);
            lemma_has_code_concat(a + t, el, c);
        },
        StmtV::Gg(Some(x)) => lemma_expr_diags(items, sc, x, c),
        StmtV::Gg(None) => {},
        StmtV::Up(x) => {
            lemma_expr_diags(items, sc, x, c);
            let r = infer(items, sc, x);
            let q: Seq<SemaErrorV> = if r.1 != crate::sema::Ty::Txt && r.1 != crate::sema::Ty::Unknown {
                seq![crate::sema::diag("« up » attend une valeur txt"@, x.line, x.col)]
            } else {
                seq![]
            };
            lemma_has_code_concat(r.0, q, c);
        },
        StmtV::Afk(x) => lemma_expr_diags(items, sc, x, c),
        StmtV::Expr(x) => lemma_expr_diags(items, sc, x, c),
    }
}

proof fn lemma_item_errs_code(all: Seq<ItemV>, cfg: Config, items: Seq<ItemV>, c: Seq<char>, p: spec_fn(Seq<StmtV>) -> bool)
    requires
        code_matches(all, cfg, c, p),
    ensures
        has_code(item_errs(all, cfg, items), c) == items_some_tour(items, p),
    decreases items.len(),
{
    if items.len() > 0 {
        lemma_item_errs_code(all, cfg, items.drop_last(), c, p);
        let last: Seq<SemaErrorV> = match items.last() {
            ItemV::Bot(b) => crate::sema::check_bot(all, cfg, b),
            ItemV::Connexion(blk) => check_block(all, cfg, seq![Map::empty()], blk),
            _ => seq![],
        };
        match items.last() {
            ItemV::Bot(b) => lemma_check_block_code(all, cfg, seq![Map::empty(), crate::sema::params_scope(b.params)], b.body, c, p),
            ItemV::Connexion(blk) => lemma_check_block_code(all, cfg, seq![Map::empty()], blk, c, p),
            _ => {},
        }
        lemma_has_code_concat(item_errs(all, cfg, items.drop_last()), last, c);
    }
}

proof fn lemma_pin_errs_uncoded(items: Seq<ItemV>)
    ensures
        uncoded(pin_errs(items)),
    decreases items.len(),
{
    if items.len() > 0 {
        lemma_pin_errs_uncoded(items.drop_last());
        let t = pin_errs(items);
        let a = pin_errs(items.drop_last());
        assert forall|i: int| 0 <= i < t.len() implies (#[trigger] t[i]).code is None by {
            if i < a.len() {
                assert(t[i] == a[i]);
            }
        }
    }
}

proof fn lemma_check_errors_code(prog: ProgramV, c: Seq<char>, p: spec_fn(Seq<StmtV>) -> bool)
    requires
        code_matches(prog.items, pragma_config(prog.pragmas), c, p),
    ensures
        has_code(check_errors(prog), c) == items_some_tour(prog.items, p),
{
    let cfg = pragma_config(prog.pragmas);
    lemma_pin_errs_uncoded(prog.items);
    lemma_item_errs_code(prog.items, cfg, prog.items, c, p);
    let a = pin_errs(prog.items);
    let b = item_errs(prog.items, cfg, prog.items);
    let k: Seq<SemaErrorV> = if crate::sema::has_connexion(prog.items) {
        seq![]
    } else {
        seq![crate::sema::diag("aucune connexion (point d'entrée)"@, 1, 1)]
    };
    lemma_has_code_concat(a, b, c);
    lemma_has_code_concat(a + b, k, c);
    assert(check_errors(prog) == a + b + k);
}

/// The static check reports `E-PA` exactly when some `tour`, anywhere in a bot body or a
/// `connexion` block, has a cost it can compute (no loop, no nested `tour`; `detect`
/// branches are costed by their dearer side) that asks for more AP than `max_pa`, prices
/// and budget being those the header pragmas set.
pub proof fn lemma_check_reports_greedy_pa(prog: ProgramV)
    ensures
        has_code(check_errors(prog), "E-PA"@)
            == items_some_tour(prog.items, greedy_pa(prog.items, pragma_config(prog.pragmas))),
{
    let cfg = pragma_config(prog.pragmas);
    let p = greedy_pa(prog.items, cfg);
    reveal_strlit("E-PA");
    reveal_strlit("E-PM");
    assert forall|body: Seq<StmtV>| #[trigger] has_code(budget_errs(prog.items, cfg, body), "E-PA"@) == p(body) by {
        lemma_budget_errs_codes(prog.items, cfg, body);
    }
    lemma_check_errors_code(prog, "E-PA"@, p);
}

/// The static check reports `E-PM` exactly when some `tour` with a cost it can compute
/// reads more distinct outside variables than `max_pm`.
pub proof fn lemma_check_reports_greedy_pm(prog: ProgramV)
    ensures
        has_code(check_errors(prog), "E-PM"@) == items_some_tour(prog.items, greedy_pm(pragma_config(prog.pragmas))),
{
    let cfg = pragma_config(prog.pragmas);
    let p = greedy_pm(cfg);
    reveal_strlit("E-PA");
    reveal_strlit("E-PM");
    assert forall|body: Seq<StmtV>| #[trigger] has_code(budget_errs(prog.items, cfg, body), "E-PM"@) == p(body) by {
        lemma_budget_errs_codes(prog.items, cfg, body);
    }
    lemma_check_errors_code(prog, "E-PM"@, p);
}

proof fn lemma_budget_errs_codes(items: Seq<ItemV>, cfg: Config, body: Seq<StmtV>)
    ensures
        has_code(budget_errs(items, cfg, body), "E-PA"@) == greedy_pa(items, cfg)(body),
        has_code(budget_errs(items, cfg, body), "E-PM"@) == greedy_pm(cfg)(body),
{
    reveal_strlit("E-PA");
    reveal_strlit("E-PM");
    assert("E-PA"@[3] != "E-PM"@[3]);
    let t = budget_errs(items, cfg, body);
    if !stmts_dynamic(body) {
        let pa = stmts_pa(cost_map(items, cfg), cfg, body);
        let pm = tour_pm(body).len() as i64;
        if pa > cfg.max_pa {
            assert(t[0].code == Some("E-PA"@));
        }
        if pm > cfg.max_pm {
            assert(t[t.len() - 1].code == Some("E-PM"@));
        }
    }
}

} // verus!
