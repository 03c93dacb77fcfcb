use cadernis::driver::{cost_text, dispatch, front_end, run_failure_text, usage, Command, Step, BANNER, ERR_CANDIDATURE};
use cadernis::interp::RunError;
use cadernis::sema::report;

const DOPEULS: &str = "// gg wp
serveur incarnam

bot tuer_dopeul() : kamas, coute 4 pa, cd 2 {
    gg butin(50, 200)
}

connexion {
    loot total : kamas = 0

    farm total < 1_000_000 et suspicion < 80 {
        tour {
            detect pa >= 4 et cd_pret(tuer_dopeul) {
                total += tuer_dopeul()
            } sinon {
                afk rand(2000, 5000)
            }
        }
        passer
    }

    detect total >= 1_000_000 {
        up \"objectif atteint gg\"
    } sinon {
        up \"compte banni rip\"
    }
}
";

const TROP_GOURMAND: &str = "// gg wp
connexion {
    loot x = 0
    tour {
        x = 1
        x = 2
        x = 3
        x = 4
        x = 5
        x = 6
        x = 7
    }
    passer
}
";

fn args(a: &[&str]) -> Vec<String> {
    a.iter().map(|s| s.to_string()).collect()
}

#[test]
fn sans_argument_echoue() {
    match dispatch(&[]) {
        Step::Fail(m) => assert_eq!(m, usage()),
        other => panic!("attendu un échec, eu {other:?}"),
    }
}

#[test]
fn sous_commande_inconnue_echoue() {
    match dispatch(&args(&["farmle"])) {
        Step::Fail(m) => assert!(m.starts_with("error: sous-commande inconnue « farmle »")),
        other => panic!("attendu un échec, eu {other:?}"),
    }
}

#[test]
fn aide_reussit() {
    for a in ["-h", "--help", "help"] {
        match dispatch(&args(&[a])) {
            Step::Help(m) => assert_eq!(m, usage()),
            other => panic!("attendu l'aide, eu {other:?}"),
        }
    }
    assert!(usage().ends_with(BANNER));
}

#[test]
fn commande_sans_fichier_echoue() {
    match dispatch(&args(&["run"])) {
        Step::Fail(m) => assert!(m.starts_with("error: la commande « run » attend un fichier .cdl")),
        other => panic!("attendu un échec, eu {other:?}"),
    }
}

#[test]
fn commandes_reconnues() {
    let cases = [("run", Command::Run), ("build", Command::Build), ("check", Command::Check), ("cost", Command::Cost)];
    for (a, c) in cases {
        match dispatch(&args(&[a, "x.cdl", "ignoré"])) {
            Step::Go(cmd, path) => {
                assert_eq!(cmd, c);
                assert_eq!(path, "x.cdl");
            }
            other => panic!("attendu une commande, eu {other:?}"),
        }
    }
}

#[test]
fn header_present_check_ok() {
    assert!(front_end("// gg wp\nconnexion {}\n").is_ok());
}

#[test]
fn header_absent_refuse() {
    let e = front_end("connexion {}\n").unwrap_err();
    assert_eq!(e, vec![ERR_CANDIDATURE.to_string()]);
}

#[test]
fn tour_gourmand_refuse_au_check() {
    let e = front_end(TROP_GOURMAND).unwrap_err();
    assert!(e.iter().any(|l| l.starts_with("error[E-PA]")));
}

#[test]
fn erreur_de_syntaxe_au_check() {
    let e = front_end("// gg wp\nconnexion").unwrap_err();
    assert_eq!(e.len(), 1);
    assert!(e[0].starts_with("error: "));
    assert!(e[0].contains("(ligne 2, colonne"));
}

#[test]
fn cost_golden() {
    let prog = front_end(DOPEULS).unwrap();
    let s = cost_text(&report(&prog));
    assert!(s.contains("tuer_dopeul : 4 PA"), "coût bot attendu : {s:?}");
    assert!(s.contains("5/6 PA"), "usage PA du tour attendu : {s:?}");
    assert!(s.contains("1/3 PM"), "usage PM du tour attendu : {s:?}");
    assert_eq!(
        s,
        "bots — coût PA effectif :\n  tuer_dopeul : 4 PA (déclaré)\ntours — usage par tour (budget 6 PA / 3 PM) :\n  ligne 13, col 20 : 5/6 PA, 1/3 PM\n"
    );
}

#[test]
fn cost_sans_bot_ni_tour() {
    let prog = front_end("// gg wp\nconnexion {}").unwrap();
    assert_eq!(
        cost_text(&report(&prog)),
        "bots — coût PA effectif :\n  (aucun)\ntours — usage par tour (budget 6 PA / 3 PM) :\n  (aucun)\n"
    );
}

#[test]
fn texte_des_echecs_d_execution() {
    assert_eq!(run_failure_text(&RunError::Banni), "error: compte banni");
    assert_eq!(run_failure_text(&RunError::Cooldown), "error: sort en cooldown");
    assert_eq!(run_failure_text(&RunError::Msg("x".to_string())), "error: x");
}
