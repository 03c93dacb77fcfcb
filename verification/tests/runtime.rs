use cadernis::config::Config;
use cadernis::runtime::{Banned, Fault, Runtime};

fn rt() -> Runtime {
    Runtime::new(Config {
        seed: Some(1),
        ..Config::default()
    })
}

#[test]
fn budget_initial_plein() {
    let r = rt();
    assert_eq!(r.pa(), 6);
    assert_eq!(r.pm(), 3);
}

#[test]
fn depense_et_regen() {
    let mut r = rt();
    r.spend_pa(4).unwrap();
    assert_eq!(r.pa(), 2);
    r.start_turn();
    assert_eq!(r.pa(), 6);
}

#[test]
fn pa_insuffisant() {
    let mut r = rt();
    let e = r.spend_pa(7).unwrap_err();
    assert!(matches!(e, Fault::PaInsuffisant { .. }));
}

#[test]
fn rand_seedable_deterministe() {
    let mut a = Runtime::new(Config {
        seed: Some(42),
        ..Config::default()
    });
    let mut b = Runtime::new(Config {
        seed: Some(42),
        ..Config::default()
    });
    assert_eq!(a.rand(0, 1000), b.rand(0, 1000));
}

#[test]
fn rand_dans_bornes() {
    let mut r = rt();
    for _ in 0..100 {
        let v = r.rand(50, 200);
        assert!((50..=200).contains(&v));
    }
}

#[test]
fn pragma_surcharge_config() {
    let mut c = Config::default();
    assert!(c.apply("max_pa", 8));
    assert_eq!(c.max_pa, 8);
    assert!(!c.apply("inconnu", 1));
}

#[test]
fn config_par_defaut() {
    let c = Config::default();
    assert_eq!((c.max_pa, c.max_pm, c.seuil_ban, c.penalite, c.decay), (6, 3, 80, 7, 3));
    assert_eq!((c.fenetre, c.bucket_ms, c.assign_pa, c.up_pa, c.seed, c.patch_seed), (8, 25, 1, 1, None, 0));
}

#[test]
fn pragma_inconnu_laisse_la_config() {
    let mut c = Config::default();
    assert!(!c.apply("inconnu", 1));
    assert_eq!(c, Config::default());
    assert!(c.apply("seed", 9));
    assert_eq!(c.seed, Some(9));
}

#[test]
fn pa_insuffisant_detail_et_etat_intact() {
    let mut r = rt();
    r.spend_pa(2).unwrap();
    assert_eq!(r.spend_pa(5), Err(Fault::PaInsuffisant { demande: 5, restant: 4 }));
    assert_eq!(r.pa(), 4);
    assert_eq!(
        Fault::PaInsuffisant { demande: 5, restant: 4 }.message(),
        "PaInsuffisant — 5 PA demandés, 4 restant(s)"
    );
}

#[test]
fn pm_une_fois_par_variable_et_par_tour() {
    let mut r = rt();
    r.pm_touch(1).unwrap();
    r.pm_touch(1).unwrap();
    assert_eq!(r.pm(), 2);
    r.pm_touch(2).unwrap();
    r.pm_touch(3).unwrap();
    assert_eq!(r.pm(), 0);
    assert_eq!(r.pm_touch(4), Err(Fault::PmInsuffisant { demande: 1, restant: 0 }));
    r.start_turn();
    assert_eq!(r.pm(), 3);
    r.pm_touch(1).unwrap();
    assert_eq!(r.pm(), 2);
}

#[test]
fn up_repete_au_meme_rythme_bannit() {
    let mut r = rt();
    for _ in 0..12 {
        assert_eq!(r.up("x".to_string()), Ok(()));
    }
    assert_eq!(r.suspicion(), 77);
    assert_eq!(r.up("x".to_string()), Err(Banned));
    assert_eq!(r.suspicion(), 84);
    assert_eq!(r.output().len(), 13);
}

#[test]
fn suspicion_decroit_sans_collision() {
    let mut r = rt();
    r.up("a".to_string()).unwrap();
    r.up("a".to_string()).unwrap();
    assert_eq!(r.suspicion(), 7);
    r.afk(100).unwrap();
    assert_eq!(r.suspicion(), 4);
    r.afk(100).unwrap();
    assert_eq!(r.suspicion(), 1);
    r.afk(100).unwrap();
    assert_eq!(r.suspicion(), 0);
}

#[test]
fn afk_avance_l_horloge_virtuelle() {
    let mut r = rt();
    r.afk(3000).unwrap();
    assert_eq!(r.clock_ms(), 3000);
    r.afk(-5).unwrap();
    assert_eq!(r.clock_ms(), 3000);
}

#[test]
fn cooldown_d_un_bot() {
    let mut r = rt();
    let f = "f".to_string();
    assert!(r.cd_pret(&f));
    r.set_cooldown(&f, 2);
    assert!(!r.cd_pret(&f));
    r.end_turn();
    assert!(!r.cd_pret(&f));
    r.end_turn();
    assert_eq!(r.turn(), 2);
    assert!(r.cd_pret(&f));
    assert!(r.cd_pret(&"g".to_string()));
}

#[test]
fn butin_bornes_inversees() {
    let mut r = rt();
    for _ in 0..50 {
        let v = r.butin(200, 50);
        assert!((50..=200).contains(&v));
    }
    assert_eq!(r.rand(5, 5), 5);
}

#[test]
fn sortie_des_up_dans_l_ordre() {
    let mut r = rt();
    r.up("un".to_string()).unwrap();
    r.afk(40).unwrap();
    r.up("deux".to_string()).unwrap();
    assert_eq!(r.into_output(), vec!["un".to_string(), "deux".to_string()]);
}

#[test]
fn cooldown_nul_rappelable_le_meme_tour() {
    let mut r = rt();
    let f = "f".to_string();
    r.end_turn();
    r.set_cooldown(&f, 0);
    assert!(r.cd_pret(&f));
    r.set_cooldown(&f, 3);
    assert!(!r.cd_pret(&f));
    r.end_turn();
    r.end_turn();
    assert!(!r.cd_pret(&f));
    r.end_turn();
    assert!(r.cd_pret(&f));
}

#[test]
fn depense_negative_rend_des_pa() {
    let mut r = rt();
    let avant = r.pa();
    r.spend_pa(-3).unwrap();
    assert_eq!(r.pa(), avant + 3);
    let pm = r.pm();
    r.spend_pm(-2).unwrap();
    assert_eq!(r.pm(), pm + 2);
}
