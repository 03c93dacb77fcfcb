use cadernis::ast::{BinOp, ExprKind, Item, Program, Stmt, Type};
use cadernis::parser::parse;

const DOPEULS: &str = "// gg wp
serveur incarnam

bot tuer_dopeul() : kamas, coute 4 pa, cd 2 {
    gg butin(50, 200)
}

connexion {
    loot total : kamas = 0

    farm total < 1_000_000 et suspicion < 80 {
        tour {
            detect pa >= 4 et cd_pret(tuer_dopeul) {
                total += tuer_dopeul()
            } sinon {
                afk rand(2000, 5000)
            }
        }
        passer
    }

    detect total >= 1_000_000 {
        up \"objectif atteint gg\"
    } sinon {
        up \"compte banni rip\"
    }
}
";

const SOMME: &str = "// gg wp
connexion {
    loot n   : kamas = 100
    loot i   : kamas = 1
    loot acc : kamas = 0

    farm i <= n {
        tour {
            acc += i      // couche calcul : 1 PA, 0 suspicion
            i   += 1      // 1 PA
        }
        passer            // tour suivant, budget régénéré
    }
    up \"fin du calcul\"    // une seule action observable, en fin
}
";

fn parse_ok(src: &str) -> Program {
    parse(src).unwrap_or_else(|e| panic!("parse échoué: {}", e.message()))
}

#[test]
fn golden_parse() {
    let prog = parse_ok(DOPEULS);
    assert_eq!(prog.items.len(), 3);
    assert!(matches!(prog.items[0], Item::Serveur(ref n) if n == "incarnam"));
    match &prog.items[1] {
        Item::Bot(b) => {
            assert_eq!(b.name, "tuer_dopeul");
            assert_eq!(b.cost_pa, Some(4));
            assert_eq!(b.cd, Some(2));
            assert!(matches!(b.ret, Some(Type::Kamas)));
        }
        _ => panic!("attendu un bot"),
    }
    assert!(matches!(prog.items[2], Item::Connexion(_)));
}

#[test]
fn somme_parse() {
    let prog = parse_ok(SOMME);
    assert_eq!(prog.items.len(), 1);
}

#[test]
fn precedence_arith() {
    let prog = parse_ok("// gg wp\nconnexion { loot x = 1 + 2 * 3 }");
    let Item::Connexion(b) = &prog.items[0] else {
        panic!()
    };
    let Stmt::Loot { value, .. } = &b.stmts[0] else {
        panic!()
    };
    match &value.kind {
        ExprKind::Binary(BinOp::Add, _l, r) => {
            assert!(matches!(r.kind, ExprKind::Binary(BinOp::Mul, _, _)));
        }
        other => panic!("attendu Add au sommet, eu {other:?}"),
    }
}

#[test]
fn precedence_et_ou_comparaison() {
    let prog = parse_ok("// gg wp\nconnexion { loot x = 1 < 2 et legit }");
    let Item::Connexion(b) = &prog.items[0] else {
        panic!()
    };
    let Stmt::Loot { value, .. } = &b.stmts[0] else {
        panic!()
    };
    assert!(matches!(value.kind, ExprKind::Binary(BinOp::And, _, _)));
}

#[test]
fn afk_rand_est_afk_dun_appel() {
    let prog = parse_ok("// gg wp\nconnexion { tour { afk rand(2000, 5000) } }");
    let Item::Connexion(b) = &prog.items[0] else {
        panic!()
    };
    let Stmt::Tour(t) = &b.stmts[0] else { panic!() };
    match &t.stmts[0] {
        Stmt::Afk(e) => assert!(matches!(e.kind, ExprKind::Call(ref n, _) if n == "rand")),
        other => panic!("attendu Afk(Call), eu {other:?}"),
    }
}

#[test]
fn pragma_en_tete() {
    let prog = parse_ok("// gg wp\n#max_pa 8\n#seed 42\nconnexion {}");
    assert_eq!(prog.pragmas.len(), 2);
    assert_eq!(prog.pragmas[0].key, "max_pa");
    assert_eq!(prog.pragmas[0].value, 8);
}

#[test]
fn grind_bornes() {
    let prog = parse_ok("// gg wp\nconnexion { grind i de 0 a 10 {} }");
    let Item::Connexion(b) = &prog.items[0] else {
        panic!()
    };
    assert!(matches!(b.stmts[0], Stmt::Grind { .. }));
}

#[test]
fn erreur_position() {
    let e = parse("// gg wp\nconnexion").unwrap_err();
    assert_eq!(e.line, 2);
}

#[test]
fn erreur_brace_manquante() {
    let e = parse("// gg wp\nconnexion { loot x = 1").unwrap_err();
    assert!(e.msg.contains('}'));
}

#[test]
fn pano_avec_epinglage() {
    let prog = parse_ok("// gg wp\npano Etat { Connecte, @2 Banni }\nconnexion {}");
    match &prog.items[0] {
        Item::Pano(p) => {
            assert_eq!(p.name, "Etat");
            assert_eq!(p.variants.len(), 2);
            assert_eq!(p.variants[0].pin, None);
            assert_eq!(p.variants[1].name, "Banni");
            assert_eq!(p.variants[1].pin, Some(2));
        }
        _ => panic!("attendu un pano"),
    }
}

#[test]
fn perso_et_construction() {
    let prog = parse_ok("// gg wp\nperso Heros { @0 niveau : kamas, vie : kamas }\nconnexion { loot h = Heros { niveau: 1, vie: 2 }\nloot v = h.vie }");
    match &prog.items[0] {
        Item::Perso(p) => {
            assert_eq!(p.fields.len(), 2);
            assert_eq!(p.fields[0].pin, Some(0));
        }
        _ => panic!("attendu un perso"),
    }
    let Item::Connexion(b) = &prog.items[1] else { panic!() };
    let Stmt::Loot { value, .. } = &b.stmts[0] else { panic!() };
    assert!(matches!(value.kind, ExprKind::Struct(ref n, ref f) if n == "Heros" && f.len() == 2));
    let Stmt::Loot { value, .. } = &b.stmts[1] else { panic!() };
    assert!(matches!(value.kind, ExprKind::Path(ref a, ref m) if a == "h" && m == "vie"));
}

#[test]
fn caractere_invalide_en_erreur_de_parse() {
    let e = parse("// gg wp\nconnexion { % }").unwrap_err();
    assert_eq!(e.msg, "caractère invalide");
    assert_eq!((e.line, e.col), (2, 13));
}

#[test]
fn message_erreur_avec_position() {
    let e = parse("// gg wp\nconnexion { loot x = 1").unwrap_err();
    assert!(e.message().ends_with(&format!("(ligne {}, colonne {})", e.line, e.col)));
}

#[test]
fn entete_non_verifiee_par_parse() {
    assert!(parse("connexion {}").is_ok());
}
