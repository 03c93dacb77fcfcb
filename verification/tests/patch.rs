use cadernis::patch::{fill_in, layout, pin_conflict};

#[test]
fn epingle_stable_libre_derive() {
    let pins = [None, None, Some(2)];
    let a = layout(&pins, 1).unwrap();
    let b = layout(&pins, 999).unwrap();
    assert_eq!(a[2], 2, "variant épinglé stable");
    assert_eq!(b[2], 2);
    let mut differ = false;
    for s in 0..50 {
        if layout(&pins, s).unwrap()[0] != a[0] {
            differ = true;
            break;
        }
    }
    assert!(differ, "les tags libres doivent dériver selon le seed");
}

#[test]
fn tags_sont_une_permutation() {
    let pins = [None, Some(0), None, None];
    let mut t = layout(&pins, 7).unwrap();
    t.sort();
    assert_eq!(t, vec![0, 1, 2, 3]);
}

#[test]
fn epingle_hors_plage_erreur() {
    assert!(layout(&[Some(5), None], 0).is_err());
}

#[test]
fn epingle_double_erreur() {
    assert!(layout(&[Some(0), Some(0)], 0).is_err());
}

#[test]
fn messages_des_epinglages_invalides() {
    assert_eq!(
        layout(&[Some(5), None], 0),
        Err("tag épinglé @5 hors plage 0..2 (variant #0)".to_string())
    );
    assert_eq!(
        layout(&[None, Some(0), Some(0)], 3),
        Err("tag épinglé @0 en double".to_string())
    );
    assert_eq!(pin_conflict(&[Some(-1)]), Some("tag épinglé @-1 hors plage 0..1 (variant #0)".to_string()));
    assert_eq!(pin_conflict(&[Some(1), None, Some(0)]), None);
}

#[test]
fn remplissage_des_libres_dans_l_ordre() {
    let pins = [None, Some(0), None, None];
    assert_eq!(fill_in(&pins, &[3, 1, 2]), vec![3, 0, 1, 2]);
    assert_eq!(fill_in(&[Some(1), Some(0)], &[]), vec![1, 0]);
}

#[test]
fn tout_epingle_ne_depend_pas_du_seed() {
    let pins = [Some(2), Some(0), Some(1)];
    for s in 0..10 {
        assert_eq!(layout(&pins, s).unwrap(), vec![2, 0, 1]);
    }
}

#[test]
fn meme_seed_meme_disposition() {
    let pins = [None, None, None, Some(1), None];
    assert_eq!(layout(&pins, 12345), layout(&pins, 12345));
    assert_eq!(layout(&[], 4), Ok(vec![]));
}
