use cadernis::ast::Item;
use cadernis::interp::{is_panic_x, run, run_checked, Outcome, RunError};
use cadernis::parser::parse;
use cadernis::runtime::Fault;

const DOPEULS: &str = "// gg wp
serveur incarnam

bot tuer_dopeul() : kamas, coute 4 pa, cd 2 {
    gg butin(50, 200)
}

connexion {
    loot total : kamas = 0

    farm total < 1_000_000 et suspicion < 80 {
        tour {
            detect pa >= 4 et cd_pret(tuer_dopeul) {
                total += tuer_dopeul()
            } sinon {
                afk rand(2000, 5000)
            }
        }
        passer
    }

    detect total >= 1_000_000 {
        up \"objectif atteint gg\"
    } sinon {
        up \"compte banni rip\"
    }
}
";

const DOPEULS_BAN: &str = "// gg wp
serveur incarnam

bot tuer_dopeul() : kamas, coute 4 pa, cd 2 {
    gg butin(50, 200)
}

connexion {
    loot total : kamas = 0

    farm total < 1_000_000 et suspicion < 80 {
        tour {
            detect pa >= 4 et cd_pret(tuer_dopeul) {
                total += tuer_dopeul()
            } sinon {
                afk 3000
            }
        }
        passer
    }

    detect total >= 1_000_000 {
        up \"objectif atteint gg\"
    } sinon {
        up \"compte banni rip\"
    }
}
";

const SOMME: &str = "// gg wp
connexion {
    loot n   : kamas = 100
    loot i   : kamas = 1
    loot acc : kamas = 0

    farm i <= n {
        tour {
            acc += i      // couche calcul : 1 PA, 0 suspicion
            i   += 1      // 1 PA
        }
        passer            // tour suivant, budget régénéré
    }
    up \"fin du calcul\"    // une seule action observable, en fin
}
";

const PATCH: &str = "// gg wp
pano Etat { Connecte, Deconnecte, @2 Banni }

connexion {
    detect Etat.Banni == 2 {
        up \"banni epingle ok\"
    } sinon {
        up \"banni epingle casse\"
    }
    detect Etat.Connecte == 0 {
        up \"connecte tag 0\"
    } sinon {
        up \"connecte a derive\"
    }
}
";

const PERSO: &str = "// gg wp
perso Heros { @0 niveau : kamas, vie : kamas, mana : kamas }

connexion {
    loot h = Heros { niveau: 3, vie: 100, mana: 20 }
    detect h.vie == 100 {
        up \"vie ok\"
    }
    detect Heros.niveau == 0 {
        up \"niveau tag 0 epingle\"
    }
    detect Heros.vie == 1 {
        up \"vie tag 1\"
    } sinon {
        up \"vie tag autre\"
    }
}
";

fn outcome(src: &str, seed: Option<u64>, patch_seed: Option<u64>) -> Outcome {
    let prog = parse(src).expect("parse");
    run_checked(&prog, seed, patch_seed).expect("programme exécutable")
}

fn run_src(src: &str) -> Result<(), RunError> {
    outcome(src, Some(7), None).result
}

fn stdout_of(src: &str, patch_seed: u64) -> String {
    let o = outcome(src, None, Some(patch_seed));
    assert!(o.result.is_ok());
    o.output.join("\n")
}

#[test]
fn somme_calcul_pur_ok() {
    assert!(run_src(SOMME).is_ok());
}

#[test]
fn golden_aboutit() {
    assert!(run_src(DOPEULS).is_ok());
}

#[test]
fn pa_insuffisant_dans_tour() {
    let src = "// gg wp
connexion {
    loot x = 0
    tour {
        x += 1
        x += 1
        x += 1
        x += 1
        x += 1
        x += 1
        x += 1
    }
    passer
}";
    let e = run_src(src).unwrap_err();
    assert!(matches!(e, RunError::Fault(Fault::PaInsuffisant { .. })));
}

#[test]
fn variante_afk_fixe_bannit() {
    assert!(matches!(run_src(DOPEULS_BAN), Err(RunError::Banni)));
}

#[test]
fn appel_bot_en_cooldown() {
    let src = "// gg wp
bot f() : kamas, coute 1 pa, cd 2 { gg 1 }
connexion {
    tour {
        loot a = f()
        loot b = f()
    }
    passer
}";
    assert!(matches!(run_src(src), Err(RunError::Cooldown)));
}

#[test]
fn calcul_hors_tour_non_budgete() {
    let src = "// gg wp
connexion {
    loot x = 0
    grind i de 1 a 100 { x += 1 }
}";
    assert!(run_src(src).is_ok());
}

#[test]
fn epingle_survit_non_epingle_derive_interp() {
    let s0 = stdout_of(PATCH, 0);
    let s2 = stdout_of(PATCH, 2);
    assert!(s0.contains("banni epingle ok"));
    assert!(s2.contains("banni epingle ok"));
    assert!(
        s0.contains("connecte tag 0"),
        "seed 0 attendu tag 0 : {s0:?}"
    );
    assert!(
        s2.contains("connecte a derive"),
        "seed 2 attendu dérive : {s2:?}"
    );
    assert_ne!(s0, s2, "le code non épinglé doit casser au rebuild");
}

#[test]
fn acces_stable_tag_champ_derive() {
    let s0 = stdout_of(PERSO, 0);
    let s2 = stdout_of(PERSO, 2);
    assert!(s0.contains("vie ok") && s2.contains("vie ok"));
    assert!(s0.contains("niveau tag 0 epingle") && s2.contains("niveau tag 0 epingle"));
    assert!(s0.contains("vie tag 1"), "seed 0 : {s0:?}");
    assert!(s2.contains("vie tag autre"), "seed 2 : {s2:?}");
}

#[test]
fn golden_affiche_l_objectif() {
    let o = outcome(DOPEULS, Some(7), None);
    assert!(o.result.is_ok());
    assert_eq!(o.output, vec!["objectif atteint gg".to_string()]);
}

#[test]
fn variante_bannie_n_atteint_pas_l_objectif() {
    let o = outcome(DOPEULS_BAN, Some(7), None);
    assert!(!o.output.iter().any(|l| l.contains("objectif atteint gg")));
}

#[test]
fn somme_affiche_la_fin() {
    let o = outcome(SOMME, Some(1), None);
    assert_eq!(o.output, vec!["fin du calcul".to_string()]);
}

#[test]
fn up_affiche_les_valeurs() {
    let src = "// gg wp
connexion {
    loot x = 6 * 7
    up x
    up legit
    up 7 / 2
    up -7 / 2
    up \"a\"
}";
    let o = outcome(src, Some(1), None);
    assert!(o.result.is_ok());
    assert_eq!(o.output, vec!["42", "legit", "3", "-3", "a"]);
}

#[test]
fn variable_indefinie_a_l_execution() {
    let src = "// gg wp\nconnexion { up y }";
    let e = run_src(src).unwrap_err();
    assert!(matches!(e, RunError::Msg(ref m) if m == "variable indéfinie « y »"));
}

#[test]
fn division_par_zero_erreur() {
    let src = "// gg wp\nconnexion { loot x = 1 / 0 }";
    assert!(matches!(run_src(src), Err(RunError::Msg(ref m)) if m == "division par zéro"));
}

#[test]
fn gg_renvoie_la_valeur_du_bot() {
    let src = "// gg wp
bot double(n : kamas) : kamas { gg n * 2 }
connexion {
    up double(21)
}";
    let o = outcome(src, Some(1), None);
    assert_eq!(o.output, vec!["42".to_string()]);
}

#[test]
fn bucket_nul_sans_action_s_execute() {
    let prog = parse("// gg wp\n#bucket_ms 0\nconnexion { loot x = 1 }").unwrap();
    let o = run_checked(&prog, Some(1), None).unwrap();
    assert!(o.result.is_ok());
    let o = run(&prog, Some(1), None);
    assert!(o.result.is_ok());
}

#[test]
fn bucket_nul_arrete_a_la_premiere_action() {
    let prog = parse("// gg wp\n#bucket_ms 0\nconnexion { loot x = 1\n up \"a\" }").unwrap();
    let o = run_checked(&prog, Some(1), None).unwrap();
    let e = o.result.unwrap_err();
    assert!(is_panic_x(&e));
    assert!(matches!(e, RunError::Msg(ref m) if m == "attempt to divide by zero"));
    assert!(o.output.is_empty());
}

#[test]
fn rand_a_un_argument_arrete_comme_un_index_hors_bornes() {
    let prog = parse("// gg wp\nconnexion { up rand(1) }").unwrap();
    let e = run_checked(&prog, Some(1), None).unwrap().result.unwrap_err();
    assert!(matches!(e, RunError::Msg(ref m) if m == "index out of bounds: the len is 1 but the index is 1"));
    assert!(is_panic_x(&e));
    let prog = parse("// gg wp\nconnexion { up rand() }").unwrap();
    let e = run_checked(&prog, Some(1), None).unwrap().result.unwrap_err();
    assert!(matches!(e, RunError::Msg(ref m) if m == "index out of bounds: the len is 0 but the index is 0"));
}

#[test]
fn cout_declare_negatif_rend_des_pa() {
    let mut prog = parse("// gg wp\nbot don() : kamas, coute 1 pa { gg 0 }\nconnexion {\n    tour {\n        loot x = don()\n        up pa\n    }\n}").unwrap();
    if let Item::Bot(b) = &mut prog.items[0] {
        b.cost_pa = Some(-3);
    }
    let o = run_checked(&prog, Some(1), None).unwrap();
    assert!(o.result.is_ok(), "{:?}", o.result);
    // 6 AP, +3 from the bot, -1 for `loot`, then `up` charges after reading `pa`.
    assert_eq!(o.output, vec!["8".to_string()]);
    assert!(!is_panic_x(&RunError::Msg("autre".to_string())));
}

#[test]
fn run_direct_sur_programme_executable() {
    let prog = parse(SOMME).unwrap();
    let o = run(&prog, Some(3), None);
    assert!(o.result.is_ok());
    assert_eq!(o.output, vec!["fin du calcul".to_string()]);
}

#[test]
fn message_des_erreurs_d_execution() {
    assert_eq!(RunError::Banni.message(), "compte banni");
    assert_eq!(RunError::Cooldown.message(), "sort en cooldown");
    assert_eq!(
        RunError::Fault(Fault::PmInsuffisant { demande: 1, restant: 0 }).message(),
        "PmInsuffisant — 1 PM demandés, 0 restant(s)"
    );
}

#[test]
fn calcul_pur_jamais_banni_et_muet() {
    let src = "// gg wp
connexion {
    loot acc = 0
    grind i de 1 a 500 {
        tour { acc += rand(1, 3) }
        passer
    }
}";
    let o = outcome(src, Some(11), None);
    assert!(o.result.is_ok());
    assert!(o.output.is_empty());
}

#[test]
fn tour_au_budget_exact_passe() {
    let src = "// gg wp
bot f() : kamas, coute 4 pa { gg 1 }
connexion {
    loot x = 0
    tour {
        x = f()
        loot y = 2
    }
    passer
}";
    let prog = parse(src).unwrap();
    assert!(cadernis::sema::check(&prog).is_empty());
    let o = run_checked(&prog, Some(1), None).unwrap();
    assert!(o.result.is_ok());
}

#[test]
fn tour_a_trois_variables_externes_passe() {
    let src = "// gg wp
connexion {
    loot a = 1
    loot b = 2
    loot c = 3
    tour {
        a += b
        a += c
        loot t = a + b
    }
    passer
    detect a == 6 { up \"a vaut 6\" }
}";
    let prog = parse(src).unwrap();
    assert!(cadernis::sema::check(&prog).is_empty());
    let o = run_checked(&prog, Some(1), None).unwrap();
    assert!(o.result.is_ok());
    assert_eq!(o.output, vec!["a vaut 6".to_string()]);
}

#[test]
fn quatrieme_variable_externe_depasse_au_runtime() {
    let src = "// gg wp
connexion {
    loot a = 1
    loot b = 2
    loot c = 3
    loot d = 4
    loot t = 0
    grind i de 1 a 1 {
        tour {
            farm cheat { passer }
            t = a
            t = b
            t = c
            t = d
        }
    }
}";
    let prog = parse(src).unwrap();
    let o = run_checked(&prog, Some(1), None).unwrap();
    assert!(matches!(o.result, Err(RunError::Fault(Fault::PmInsuffisant { demande: 1, restant: 0 }))));
}

#[test]
fn message_de_type_avec_rendu_debug() {
    let src = "// gg wp\nconnexion { afk legit }";
    let e = run_src(src).unwrap_err();
    assert!(matches!(e, RunError::Msg(ref m) if m == "entier attendu, eu Bool(true)"));
}

#[test]
fn message_de_type_rend_un_perso_comme_une_table() {
    let src = "// gg wp\nperso P { a : kamas }\nconnexion {\n    loot h = P { a: 1 }\n    afk h\n}";
    let e = run_src(src).unwrap_err();
    assert!(matches!(e, RunError::Msg(ref m) if m == "entier attendu, eu Struct({\"a\": Int(1)})"));
}

#[test]
fn message_de_type_rend_une_chaine_entre_guillemets() {
    let src = "// gg wp\nconnexion {\n    loot s = \"x\"\n    afk s\n}";
    let e = run_src(src).unwrap_err();
    assert!(matches!(e, RunError::Msg(ref m) if m == "entier attendu, eu Str(\"x\")"));
}
