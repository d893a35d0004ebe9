use polyhex::growth::{generations_up_to, next_generation, seed_shape, Generation};
use polyhex::shape::Polyhex;

fn twelve_images(s: &Polyhex) -> Vec<Polyhex> {
    let mut images = Vec::new();
    let mut img = s.canonize_fixed();
    for _ in 0..6 {
        images.push(img.duplicate());
        img = img.rotate();
    }
    let mut mirrored = s.flip_x();
    for _ in 0..6 {
        images.push(mirrored.duplicate());
        mirrored = mirrored.rotate();
    }
    images
}

#[test]
fn exact_counts_for_small_sizes() {
    // The published free-polyhex counts: 1, 1, 3, 7, 22 for sizes 1-5.
    assert_eq!(seed_shape().0.len(), 1);
    let gens = generations_up_to(5);
    assert_eq!(gens.len(), 4);
    assert_eq!(gens[0].len(), 1);
    assert_eq!(gens[1].len(), 3);
    assert_eq!(gens[2].len(), 7);
    assert_eq!(gens[3].len(), 22);
}

#[test]
fn scenario_up_to_three() {
    let gens = generations_up_to(3);
    assert_eq!(gens.len(), 2);
    assert_eq!(gens[0].len(), 1);
    assert_eq!(gens[1].len(), 3);
    // Each generation is keyed by distinct canonical coordinate-list
    // strings.
    for g in &gens {
        let mut seen: Vec<String> = Vec::new();
        for (shape, _) in &g.0 {
            let key = shape.key_string();
            assert!(!seen.contains(&key));
            seen.push(key);
        }
    }
    assert_eq!(gens[0].0[0].0.key_string(), "0,0,0,1");
    assert_eq!(gens[0].0[0].1.name(), "Rotation2FoldMirrorAll");
}

#[test]
fn growth_agrees_with_direct_canonicalization() {
    // The size-2 key is the free canonical form of the hand-built
    // two-cell shape.
    let seed = vec![seed_shape()];
    let g = next_generation(&seed);
    assert_eq!(g.len(), 1);
    let mut domino = seed_shape();
    domino.0.push(polyhex::coord::Coord(1, 0));
    let (key, label) = domino.canonize_free();
    assert_eq!(g.0[0].0, key);
    assert_eq!(g.0[0].1, label);
}

#[test]
fn generation_keys_are_sorted_and_unique() {
    let gens = generations_up_to(5);
    for g in &gens {
        for w in g.0.windows(2) {
            assert!(w[0].0 .0 < w[1].0 .0);
        }
    }
}

#[test]
fn no_two_keys_are_symmetry_equivalent() {
    // No generation holds two distinct keys that are images of each
    // other under any of the twelve symmetries.
    let gens = generations_up_to(4);
    for g in &gens {
        let keys: Vec<&Polyhex> = g.0.iter().map(|e| &e.0).collect();
        for a in 0..keys.len() {
            let images = twelve_images(keys[a]);
            for b in 0..keys.len() {
                if a != b {
                    for img in &images {
                        assert_ne!(img, keys[b]);
                    }
                }
            }
        }
    }
}

#[test]
fn stabilizer_order_divides_twelve() {
    let gens = generations_up_to(5);
    for g in &gens {
        for (shape, _) in &g.0 {
            let n = shape.stabilizer_order();
            assert!(n >= 1 && n <= 12);
            assert_eq!(12 % n, 0);
        }
    }
}

#[test]
fn keys_feed_the_next_generation() {
    let gens = generations_up_to(4);
    let keys: Vec<Polyhex> = gens[1].keys();
    assert_eq!(keys.len(), 3);
    let regrown: Generation = next_generation(&keys);
    assert_eq!(regrown.len(), gens[2].len());
    for (i, (shape, label)) in regrown.0.iter().enumerate() {
        assert_eq!(shape, &gens[2].0[i].0);
        assert_eq!(label, &gens[2].0[i].1);
    }
}

#[test]
fn generations_below_two_are_empty() {
    assert_eq!(generations_up_to(0).len(), 0);
    assert_eq!(generations_up_to(1).len(), 0);
    assert_eq!(generations_up_to(2).len(), 1);
}
