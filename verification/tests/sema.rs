use cadernis::config::Config;
use cadernis::parser::parse;
use cadernis::sema::{check, cost_report, effective_costs, report, CostTable, SemaError};

const DOPEULS: &str = "// gg wp
serveur incarnam

bot tuer_dopeul() : kamas, coute 4 pa, cd 2 {
    gg butin(50, 200)
}

connexion {
    loot total : kamas = 0

    farm total < 1_000_000 et suspicion < 80 {
        tour {
            detect pa >= 4 et cd_pret(tuer_dopeul) {
                total += tuer_dopeul()
            } sinon {
                afk rand(2000, 5000)
            }
        }
        passer
    }

    detect total >= 1_000_000 {
        up \"objectif atteint gg\"
    } sinon {
        up \"compte banni rip\"
    }
}
";

const SOMME: &str = "// gg wp
connexion {
    loot n   : kamas = 100
    loot i   : kamas = 1
    loot acc : kamas = 0

    farm i <= n {
        tour {
            acc += i      // couche calcul : 1 PA, 0 suspicion
            i   += 1      // 1 PA
        }
        passer            // tour suivant, budget régénéré
    }
    up \"fin du calcul\"    // une seule action observable, en fin
}
";

fn errs(src: &str) -> Vec<SemaError> {
    let prog = parse(src).expect("parse");
    check(&prog)
}

fn costs(src: &str) -> CostTable {
    let prog = parse(src).expect("parse");
    effective_costs(&prog, &Config::default())
}

#[test]
fn rapport_de_cout() {
    let prog = parse(DOPEULS).unwrap();
    let r = report(&prog);
    let bot = r.bots.iter().find(|b| b.name == "tuer_dopeul").unwrap();
    assert_eq!(bot.cost, 4);
    assert!(bot.declared);
    assert_eq!(r.tours.len(), 1);
    assert_eq!(r.tours[0].pa, 5);
    assert_eq!(r.tours[0].pm, 1);
    assert!(!r.tours[0].dynamic);
}

#[test]
fn cout_explicite_prioritaire() {
    let c = costs("// gg wp\nbot f() : kamas, coute 4 pa { gg 1 }\nconnexion {}");
    assert_eq!(c.get("f").unwrap(), 4);
}

#[test]
fn cout_auto_derive_du_corps() {
    let c = costs("// gg wp\nbot f() : kamas { loot a = 1\nloot b = 2\ngg b }\nconnexion {}");
    assert_eq!(c.get("f").unwrap(), 2);
}

#[test]
fn cout_auto_appels_imbriques() {
    let c = costs(
        "// gg wp\nbot g() : kamas { loot a = 1\ngg a }\nbot f() : kamas { gg g() }\nconnexion {}",
    );
    assert_eq!(c.get("g").unwrap(), 1);
    assert_eq!(c.get("f").unwrap(), 1, "f hérite du coût de g");
}

#[test]
fn cout_auto_alimente_verif_tour() {
    let src = "// gg wp
bot lourd() : kamas { loot a = 0
a = 1
a = 2
a = 3
a = 4
a = 5
a = 6
gg a }
connexion {
    tour { loot x = lourd() }
    passer
}";
    let e = errs(src);
    assert!(
        e.iter().any(|x| x.code == Some("E-PA")),
        "attendu E-PA : {e:?}"
    );
}

#[test]
fn golden_sans_erreur() {
    assert!(
        errs(DOPEULS).is_empty(),
        "golden ne doit pas avoir d'erreur sema"
    );
}

#[test]
fn somme_sans_erreur() {
    assert!(errs(SOMME).is_empty());
}

#[test]
fn tour_trop_gourmand_pa() {
    let src = "// gg wp
connexion {
    loot x = 0
    tour {
        x = 1
        x = 2
        x = 3
        x = 4
        x = 5
        x = 6
        x = 7
    }
    passer
}";
    let e = errs(src);
    assert!(
        e.iter().any(|x| x.code == Some("E-PA")),
        "attendu E-PA, eu {e:?}"
    );
}

#[test]
fn tour_trop_gourmand_pm() {
    let src = "// gg wp
connexion {
    loot a = 0
    loot b = 0
    loot c = 0
    loot d = 0
    loot t = 0
    tour {
        t = a
        t = b
        t = c
        t = d
    }
    passer
}";
    let e = errs(src);
    assert!(
        e.iter().any(|x| x.code == Some("E-PM")),
        "attendu E-PM, eu {e:?}"
    );
}

#[test]
fn variable_indefinie() {
    let e = errs("// gg wp\nconnexion { loot x = y }");
    assert!(e.iter().any(|x| x.msg.contains("indéfinie")));
}

#[test]
fn affectation_constante() {
    let e = errs("// gg wp\nconnexion { ban k = 1\n k = 2 }");
    assert!(e.iter().any(|x| x.msg.contains("constante")));
}

#[test]
fn boucle_dans_tour_pas_de_faux_e_pa() {
    let src = "// gg wp
connexion {
    loot x = 0
    tour {
        farm x < 100 { x = x }
    }
    passer
}";
    let e = errs(src);
    assert!(!e.iter().any(|x| x.code == Some("E-PA")));
}

#[test]
fn pragma_releve_le_budget() {
    let src = "// gg wp
#max_pa 8
connexion {
    loot x = 0
    tour {
        x = 1
        x = 2
        x = 3
        x = 4
        x = 5
        x = 6
        x = 7
    }
    passer
}";
    assert!(errs(src).is_empty());
    let r = report(&parse(src).unwrap());
    assert_eq!(r.max_pa, 8);
    assert_eq!(r.tours[0].pa, 7);
}

#[test]
fn cout_inconnu_hors_programme() {
    let c = costs("// gg wp\nbot f() { }\nconnexion {}");
    assert_eq!(c.get("f"), Some(0));
    assert_eq!(c.get("g"), None);
}

#[test]
fn rapport_avec_config_explicite() {
    let prog = parse(DOPEULS).unwrap();
    let cfg = Config { max_pa: 10, ..Config::default() };
    let r = cost_report(&prog, &cfg);
    assert_eq!(r.max_pa, 10);
    assert_eq!(r.max_pm, 3);
    assert_eq!(r.tours[0].pa, 5);
}

#[test]
fn message_de_diagnostic_localise() {
    let e = errs("// gg wp\nconnexion { loot x = y }");
    let m = e[0].message();
    assert!(m.starts_with("error: "));
    assert!(m.ends_with(&format!("(ligne {}, colonne {})", e[0].line, e[0].col)));
}

#[test]
fn message_de_diagnostic_avec_code() {
    let src = "// gg wp
connexion {
    loot x = 0
    tour {
        x = 1
        x = 2
        x = 3
        x = 4
        x = 5
        x = 6
        x = 7
    }
    passer
}";
    let e = errs(src);
    let d = e.iter().find(|x| x.code == Some("E-PA")).unwrap();
    assert!(d.message().starts_with("error[E-PA]: "));
}

#[test]
fn connexion_absente_signalee() {
    let e = errs("// gg wp\nbot f() { }");
    assert_eq!(e.len(), 1);
    assert_eq!(e[0].msg, "aucune connexion (point d'entrée)");
    assert_eq!((e[0].line, e[0].col), (1, 1));
    assert_eq!(e[0].code, None);
}

#[test]
fn tour_gourmand_dans_une_boucle_est_signale() {
    // A static `tour` nested in a loop of a bot body is still checked.
    let src = "// gg wp
bot b() : kamas {
    loot x = 0
    grind i de 1 a 3 {
        tour {
            x = 1
            x = 2
            x = 3
            x = 4
            x = 5
            x = 6
            x = 7
        }
    }
    gg x
}
connexion { passer }";
    let e = errs(src);
    assert_eq!(e.iter().filter(|x| x.code == Some("E-PA")).count(), 1, "{e:?}");
}

#[test]
fn tour_dans_la_limite_pas_de_e_pa() {
    let src = "// gg wp
connexion {
    loot x = 0
    tour {
        x = 1
        x = 2
    }
}";
    let e = errs(src);
    assert!(!e.iter().any(|x| x.code == Some("E-PA") || x.code == Some("E-PM")), "{e:?}");
}

#[test]
fn rapport_trie_et_complet() {
    let src = "// gg wp
bot zed() : kamas { gg 1 }
bot alpha() : kamas, coute 2 pa { gg 1 }
bot mid() : kamas { gg 1 }
connexion { passer }";
    let prog = parse(src).unwrap();
    let r = cost_report(&prog, &Config::default());
    let names: Vec<&str> = r.bots.iter().map(|b| b.name.as_str()).collect();
    assert_eq!(names, vec!["alpha", "mid", "zed"]);
    assert!(r.bots[0].declared && r.bots[0].cost == 2);
    assert!(!r.bots[1].declared && !r.bots[2].declared);
}
