use polyhex::coord::Coord;
use polyhex::shape::Polyhex;
use polyhex::symmetry::PolyhexSymmetryGroup;

#[test]
fn rotate_six_times_returns_original() {
    let starts = [
        Coord(0, 0),
        Coord(1, 0),
        Coord(0, 1),
        Coord(3, -2),
        Coord(-7, 11),
        Coord(1000, -999),
    ];
    for c in starts {
        let mut r = c;
        for _ in 0..6 {
            r = r.rotate();
        }
        assert_eq!(r, c);
    }
}

#[test]
fn reflect_twice_returns_original() {
    let starts = [Coord(0, 0), Coord(1, 0), Coord(0, 1), Coord(3, -2), Coord(-7, 11)];
    for c in starts {
        assert_eq!(c.flip_x().flip_x(), c);
    }
}

#[test]
fn rotate_single_step_value() {
    // (x, y) maps to (x - y, x)
    assert_eq!(Coord(3, 1).rotate(), Coord(2, 3));
    assert_eq!(Coord(1, 0).rotate(), Coord(1, 1));
    assert_eq!(Coord(0, 0).rotate(), Coord(0, 0));
}

#[test]
fn flip_single_step_value() {
    // (x, y) maps to (y - 1 - x, y)
    assert_eq!(Coord(0, 0).flip_x(), Coord(-1, 0));
    assert_eq!(Coord(2, 5).flip_x(), Coord(2, 5));
}

#[test]
fn canonize_fixed_translates_and_sorts() {
    let s = Polyhex(vec![Coord(2, 3), Coord(1, 1)]);
    let c = s.canonize_fixed();
    assert_eq!(c.0, vec![Coord(0, 0), Coord(1, 2)]);
}

#[test]
fn canonize_fixed_empty_shape() {
    let s = Polyhex(Vec::new());
    assert_eq!(s.canonize_fixed().0, Vec::new());
}

#[test]
fn canonize_fixed_idempotent_on_samples() {
    let samples = vec![
        Polyhex(vec![Coord(0, 0)]),
        Polyhex(vec![Coord(5, -3), Coord(4, -4), Coord(5, -4)]),
        Polyhex(vec![Coord(2, 3), Coord(1, 1), Coord(0, 2), Coord(-1, -1)]),
    ];
    for s in samples {
        let once = s.canonize_fixed();
        let twice = once.canonize_fixed();
        assert_eq!(once, twice);
    }
}

#[test]
fn canonize_free_orbit_invariance_on_samples() {
    // Any of the twelve symmetry images canonicalizes to the same key
    // and the same label.
    let samples = vec![
        Polyhex(vec![Coord(0, 0), Coord(1, 0)]),
        Polyhex(vec![Coord(0, 0), Coord(1, 0), Coord(1, 1)]),
        Polyhex(vec![Coord(0, 0), Coord(1, 0), Coord(2, 0), Coord(2, 1)]),
    ];
    for s in samples {
        let (key, label) = s.canonize_free();
        let mut img = s.canonize_fixed();
        for _ in 0..6 {
            img = img.rotate();
            let (k2, l2) = img.canonize_free();
            assert_eq!(k2, key);
            assert_eq!(l2, label);
        }
        let mut mirrored = s.flip_x();
        for _ in 0..6 {
            mirrored = mirrored.rotate();
            let (k2, l2) = mirrored.canonize_free();
            assert_eq!(k2, key);
            assert_eq!(l2, label);
        }
    }
}

#[test]
fn canonize_free_key_is_fixed_point() {
    let s = Polyhex(vec![Coord(0, 0), Coord(1, 0), Coord(1, 1)]);
    let (key, label) = s.canonize_free();
    let (key2, label2) = key.canonize_free();
    assert_eq!(key2, key);
    assert_eq!(label2, label);
}

#[test]
fn single_cell_has_all_symmetry() {
    let s = Polyhex(vec![Coord(4, -9)]);
    let (key, label) = s.canonize_free();
    assert_eq!(key.0, vec![Coord(0, 0)]);
    assert_eq!(label, PolyhexSymmetryGroup::All);
    assert_eq!(s.stabilizer_order(), 12);
}

#[test]
fn domino_classification_and_stabilizer() {
    let s = Polyhex(vec![Coord(0, 0), Coord(1, 0)]);
    let (key, label) = s.canonize_free();
    assert_eq!(key.0, vec![Coord(0, 0), Coord(0, 1)]);
    assert_eq!(label, PolyhexSymmetryGroup::Rotation2FoldMirrorAll);
    assert_eq!(s.stabilizer_order(), 4);
}

#[test]
fn key_string_renders_coordinates() {
    assert_eq!(Polyhex(vec![Coord(-12, 5)]).key_string(), "-12,5");
    assert_eq!(Polyhex(vec![Coord(0, 0), Coord(0, 1)]).key_string(), "0,0,0,1");
    assert_eq!(Polyhex(vec![Coord(10, 230), Coord(7, 0)]).key_string(), "10,230,7,0");
    assert_eq!(Polyhex(Vec::new()).key_string(), "");
}

#[test]
fn label_names() {
    assert_eq!(PolyhexSymmetryGroup::Asymmetric.name(), "None");
    assert_eq!(PolyhexSymmetryGroup::Mirror0.name(), "Mirror0");
    assert_eq!(PolyhexSymmetryGroup::Mirror30.name(), "Mirror30");
    assert_eq!(PolyhexSymmetryGroup::Rotation2Fold.name(), "Rotation2Fold");
    assert_eq!(
        PolyhexSymmetryGroup::Rotation2FoldMirrorAll.name(),
        "Rotation2FoldMirrorAll"
    );
    assert_eq!(PolyhexSymmetryGroup::Rotation3Fold.name(), "Rotation3Fold");
    assert_eq!(PolyhexSymmetryGroup::Rotation3FoldMirror0.name(), "Rotation3FoldMirror0");
    assert_eq!(
        PolyhexSymmetryGroup::Rotation3FoldMirror30.name(),
        "Rotation3FoldMirror30"
    );
    assert_eq!(PolyhexSymmetryGroup::Rotation6Fold.name(), "Rotation6Fold");
    assert_eq!(PolyhexSymmetryGroup::All.name(), "All");
}
