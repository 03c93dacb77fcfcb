//! Decisions of the `cdc` command line: which subcommand to run on which file, the front end
//! shared by all subcommands (header, parse, semantic checks), and the texts it shows.

use vstd::prelude::*;
use crate::ast::{Program, ProgramV};
use crate::interp::{run_error_text, RunError, RunErrorV};
use crate::lexer::{first_line, strip_cr, verify_header, HEADER};
use crate::parser::{parse, parse_error_text, parse_spec};
use crate::sema::{
    check, check_errors, errs_v, sema_error_text, BotCost, BotCostV, CostReport, CostReportV, SemaErrorV, TourCost,
};
use crate::text::{decimal, int_text, owned, push_text, str_is};

verus! {

/// Banner of `cdc build`.
pub const BANNER: &'static str = "cadernis compiler — gg wp";

/// Fatal message when the `// gg wp` header is missing.
pub const ERR_CANDIDATURE: &'static str = "error: candidature contributeur refusée";

pub open spec fn usage_text() -> Seq<char> {
    "cdc — Cadernis Compiler\n\nusage:\n  cdc run   <fichier.cdl>   # interprète (cdc-interp)\n  cdc build <fichier.cdl>   # compile via LLVM + link cdc-runtime → binaire natif\n  cdc check <fichier.cdl>   # lexer + parser + sema, sans exécution\n  cdc cost  <fichier.cdl>   # coût PA des bots + usage PA/PM par tour\n\n"@
        + BANNER@
}

/// Usage text of the command line.
pub fn usage() -> (s: String)
    ensures
        s@ == usage_text(),
{
    let mut s = owned(
        "cdc — Cadernis Compiler\n\nusage:\n  cdc run   <fichier.cdl>   # interprète (cdc-interp)\n  cdc build <fichier.cdl>   # compile via LLVM + link cdc-runtime → binaire natif\n  cdc check <fichier.cdl>   # lexer + parser + sema, sans exécution\n  cdc cost  <fichier.cdl>   # coût PA des bots + usage PA/PM par tour\n\n",
    );
    push_text(&mut s, BANNER);
    s
}

/// A subcommand.
#[derive(Debug, Clone, Copy, PartialEq, Eq, Structural)]
pub enum Command {
    Run,
    Build,
    Check,
    Cost,
}

/// What the command line asks for.
#[derive(Debug)]
pub enum Step {
    /// Print the usage on the standard output and succeed.
    Help(String),
    /// Print the message on the error output and fail.
    Fail(String),
    /// Run the subcommand on the file.
    Go(Command, String),
}

pub enum StepV {
    Help(Seq<char>),
    Fail(Seq<char>),
    Go(Command, Seq<char>),
}

impl View for Step {
    type V = StepV;

    open spec fn view(&self) -> StepV {
        match self {
            Step::Help(s) => StepV::Help(s@),
            Step::Fail(s) => StepV::Fail(s@),
            Step::Go(c, p) => StepV::Go(*c, p@),
        }
    }
}

pub open spec fn command_of(cmd: Seq<char>) -> Option<Command> {
    if cmd == "run"@ {
        Some(Command::Run)
    } else if cmd == "build"@ {
        Some(Command::Build)
    } else if cmd == "check"@ {
        Some(Command::Check)
    } else if cmd == "cost"@ {
        Some(Command::Cost)
    } else {
        None
    }
}

/// The decision on the arguments (without the program name).
pub open spec fn step_of(args: Seq<Seq<char>>) -> StepV {
    if args.len() == 0 {
        StepV::Fail(usage_text())
    } else {
        let cmd = args[0];
        if cmd == "-h"@ || cmd == "--help"@ || cmd == "help"@ {
            StepV::Help(usage_text())
        } else {
            match command_of(cmd) {
                None => StepV::Fail("error: sous-commande inconnue « "@ + cmd + " »\n\n"@ + usage_text()),
                Some(c) => if args.len() < 2 {
                    StepV::Fail("error: la commande « "@ + cmd + " » attend un fichier .cdl\n\n"@ + usage_text())
                } else {
                    StepV::Go(c, args[1])
                },
            }
        }
    }
}

/// Routes the command line: help, an error, or a subcommand on a file.
pub fn dispatch(args: &[String]) -> (s: Step)
    ensures
        s@ == step_of(args@.map_values(|a: String| a@)),
{
    let ghost av = args@.map_values(|a: String| a@);
    if args.len() == 0 {
        return Step::Fail(usage());
    }
    let cmd = &args[0];
    proof {
        assert(av[0] == cmd@);
    }
    if str_is(cmd.as_str(), "-h") || str_is(cmd.as_str(), "--help") || str_is(cmd.as_str(), "help") {
        return Step::Help(usage());
    }
    let c = if str_is(cmd.as_str(), "run") {
        Command::Run
    } else if str_is(cmd.as_str(), "build") {
        Command::Build
    } else if str_is(cmd.as_str(), "check") {
        Command::Check
    } else if str_is(cmd.as_str(), "cost") {
        Command::Cost
    } else {
        let mut m = owned("error: sous-commande inconnue « ");
        push_text(&mut m, cmd.as_str());
        push_text(&mut m, " »\n\n");
        let u = usage();
        push_text(&mut m, u.as_str());
        return Step::Fail(m);
    };
    if args.len() < 2 {
        let mut m = owned("error: la commande « ");
        push_text(&mut m, cmd.as_str());
        push_text(&mut m, " » attend un fichier .cdl\n\n");
        let u = usage();
        push_text(&mut m, u.as_str());
        return Step::Fail(m);
    }
    proof {
        assert(av[1] == args@[1]@);
    }
    Step::Go(c, args[1].clone())
}

/// The front end of every subcommand: the error lines it prints, or the program.
pub open spec fn front_end_of(src: Seq<char>) -> Result<ProgramV, Seq<Seq<char>>> {
    if strip_cr(first_line(src)) != HEADER@ {
        Err(seq![ERR_CANDIDATURE@])
    } else {
        match parse_spec(src) {
            Err(e) => Err(seq!["error: "@ + parse_error_text(e)]),
            Ok(p) => if check_errors(p).len() > 0 {
                Err(check_errors(p).map_values(|d: SemaErrorV| sema_error_text(d)))
            } else {
                Ok(p)
            },
        }
    }
}

/// Header, parse and semantic checks of a source: the program, or the lines to print on
/// the error output.
pub fn front_end(source: &str) -> (r: Result<Program, Vec<String>>)
    requires
        source@.len() < u32::MAX,
    ensures
        match r {
            Ok(p) => front_end_of(source@) == Ok::<ProgramV, Seq<Seq<char>>>(p@),
            Err(lines) => front_end_of(source@) == Err::<ProgramV, Seq<Seq<char>>>(lines@.map_values(|s: String| s@)),
        },
{
    if verify_header(source).is_err() {
        let mut v = Vec::new();
        v.push(owned(ERR_CANDIDATURE));
        proof {
            assert(v@.map_values(|s: String| s@) =~= seq![ERR_CANDIDATURE@]);
        }
        return Err(v);
    }
    let program = match parse(source) {
        Ok(p) => p,
        Err(e) => {
            let mut m = owned("error: ");
            let t = e.message();
            push_text(&mut m, t.as_str());
            let mut v = Vec::new();
            v.push(m);
            proof {
                assert(v@.map_values(|s: String| s@) =~= seq!["error: "@ + parse_error_text(e@)]);
            }
            return Err(v);
        },
    };
    let diags = check(&program);
    if diags.len() > 0 {
        let ghost dv = errs_v(diags@);
        let mut v: Vec<String> = Vec::new();
        let mut i: usize = 0;
        while i < diags.len()
            invariant
                dv == errs_v(diags@),
                i <= diags@.len(),
                v@.len() == i,
                forall|j: int| 0 <= j < i ==> (#[trigger] v@[j])@ == sema_error_text(dv[j]),
            decreases diags.len() - i,
        {
            v.push(diags[i].message());
            i += 1;
        }
        proof {
            assert(v@.map_values(|s: String| s@) =~= dv.map_values(|d: SemaErrorV| sema_error_text(d)));
        }
        return Err(v);
    }
    Ok(program)
}

/// Text of `cdc run` when the run fails.
pub fn run_failure_text(e: &RunError) -> (s: String)
    ensures
        s@ == "error: "@ + run_error_text(e@),
{
    let mut s = owned("error: ");
    let m = e.message();
    push_text(&mut s, m.as_str());
    s
}

/// Line of the cost report for a bot.
pub open spec fn bot_line(b: BotCostV) -> Seq<char> {
    "  "@ + b.name + " : "@ + decimal(b.cost as int) + " PA ("@ + (if b.declared { "déclaré"@ } else { "auto-dérivé"@ }) + ")\n"@
}

/// Line of the cost report for a `tour`.
pub open spec fn tour_line(t: TourCost, max_pa: i64, max_pm: i64) -> Seq<char> {
    if t.dynamic {
        "  ligne "@ + decimal(t.line as int) + ", col "@ + decimal(t.col as int)
            + " : dynamique (boucle/tour imbriqué → vérif au runtime)\n"@
    } else {
        "  ligne "@ + decimal(t.line as int) + ", col "@ + decimal(t.col as int) + " : "@ + decimal(t.pa as int) + "/"@
            + decimal(max_pa as int) + " PA, "@ + decimal(t.pm as int) + "/"@ + decimal(max_pm as int) + " PM"@
            + (if t.pa > max_pa { "  ⚠️ E-PA"@ } else { ""@ }) + (if t.pm > max_pm { "  ⚠️ E-PM"@ } else { ""@ }) + "\n"@
    }
}

pub open spec fn bot_lines(s: Seq<BotCostV>) -> Seq<char>
    decreases s.len(),
{
    if s.len() == 0 { Seq::empty() } else { bot_lines(s.drop_last()) + bot_line(s.last()) }
}

pub open spec fn tour_lines(s: Seq<TourCost>, max_pa: i64, max_pm: i64) -> Seq<char>
    decreases s.len(),
{
    if s.len() == 0 { Seq::empty() } else { tour_lines(s.drop_last(), max_pa, max_pm) + tour_line(s.last(), max_pa, max_pm) }
}

/// What `cdc cost` prints.
pub open spec fn cost_text_of(r: CostReportV) -> Seq<char> {
    "bots — coût PA effectif :\n"@ + (if r.bots.len() == 0 { "  (aucun)\n"@ } else { ""@ }) + bot_lines(r.bots)
        + "tours — usage par tour (budget "@ + decimal(r.max_pa as int) + " PA / "@ + decimal(r.max_pm as int) + " PM) :\n"@
        + (if r.tours.len() == 0 { "  (aucun)\n"@ } else { ""@ }) + tour_lines(r.tours, r.max_pa, r.max_pm)
}

fn push_int(s: &mut String, n: i64)
    ensures
        final(s)@ == old(s)@ + decimal(n as int),
{
    let t = int_text(n);
    push_text(s, t.as_str());
}

#[verifier::spinoff_prover]
#[verifier::rlimit(40)]
fn push_tour_line(s: &mut String, t: TourCost, max_pa: i64, max_pm: i64)
    ensures
        final(s)@ == old(s)@ + tour_line(t, max_pa, max_pm),
{
    let ghost s0 = s@;
        push_text(s, "  ligne ");
    push_int(s, t.line as i64);
    push_text(s, ", col ");
    push_int(s, t.col as i64);
    if t.dynamic {
        push_text(s, " : dynamique (boucle/tour imbriqué → vérif au runtime)\n");
    } else {
        push_text(s, " : ");
        push_int(s, t.pa);
        push_text(s, "/");
        push_int(s, max_pa);
        push_text(s, " PA, ");
        push_int(s, t.pm);
        push_text(s, "/");
        push_int(s, max_pm);
        push_text(s, " PM");
        if t.pa > max_pa {
            push_text(s, "  ⚠️ E-PA");
        } else {
            push_text(s, "");
        }
        if t.pm > max_pm {
            push_text(s, "  ⚠️ E-PM");
        } else {
            push_text(s, "");
        }
        push_text(s, "\n");
    }
    proof {
        assert(s@ =~= s0 + tour_line(t, max_pa, max_pm));
    }
}

/// The cost report as `cdc cost` prints it.
pub fn cost_text(r: &CostReport) -> (s: String)
    ensures
        s@ == cost_text_of(r@),
{
    let mut s = owned("bots — coût PA effectif :\n");
    if r.bots.len() == 0 {
        push_text(&mut s, "  (aucun)\n");
    } else {
        push_text(&mut s, "");
    }
    let ghost bv = r@.bots;
    let ghost s0 = s@;
    let mut i: usize = 0;
    proof {
        assert(s@ =~= s0 + bot_lines(bv.take(0)));
    }
    while i < r.bots.len()
        invariant
            bv == r@.bots,
            bv.len() == r.bots@.len(),
            i <= bv.len(),
            s@ == s0 + bot_lines(bv.take(i as int)),
        decreases r.bots.len() - i,
    {
        proof {
            assert(bv.take(i + 1).drop_last() =~= bv.take(i as int));
            assert(bv[i as int] == r.bots@[i as int]@);
        }
        let b = &r.bots[i];
        push_text(&mut s, "  ");
        push_text(&mut s, b.name.as_str());
        push_text(&mut s, " : ");
        push_int(&mut s, b.cost);
        push_text(&mut s, " PA (");
        if b.declared {
            push_text(&mut s, "déclaré");
        } else {
            push_text(&mut s, "auto-dérivé");
        }
        push_text(&mut s, ")\n");
        proof {
            assert(s@ =~= s0 + bot_lines(bv.take(i + 1)));
        }
        i += 1;
    }
    proof {
        assert(bv.take(i as int) =~= bv);
    }
    push_text(&mut s, "tours — usage par tour (budget ");
    push_int(&mut s, r.max_pa);
    push_text(&mut s, " PA / ");
    push_int(&mut s, r.max_pm);
    push_text(&mut s, " PM) :\n");
    if r.tours.len() == 0 {
        push_text(&mut s, "  (aucun)\n");
    } else {
        push_text(&mut s, "");
    }
    let ghost tv = r@.tours;
    let ghost s1 = s@;
    let mut i: usize = 0;
    proof {
        assert(s@ =~= s1 + tour_lines(tv.take(0), r.max_pa, r.max_pm));
    }
    while i < r.tours.len()
        invariant
            tv == r@.tours,
            tv == r.tours@,
            i <= tv.len(),
            s@ == s1 + tour_lines(tv.take(i as int), r.max_pa, r.max_pm),
        decreases r.tours.len() - i,
    {
        proof {
            assert(tv.take(i + 1).drop_last() =~= tv.take(i as int));
        }
        let t = r.tours[i];
        push_tour_line(&mut s, t, r.max_pa, r.max_pm);
        proof {
            assert(s@ =~= s1 + tour_lines(tv.take(i + 1), r.max_pa, r.max_pm));
        }
        i += 1;
    }
    proof {
        assert(tv.take(i as int) =~= tv);
        assert(s@ =~= cost_text_of(r@));
    }
    s
}

} // verus!
