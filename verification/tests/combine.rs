use metaritual::combine::{cycle, zip, Combine};

#[test]
fn zip_equal_lengths() {
    let a = vec![1.0, 2.0, 3.0];
    let b = vec![10.0, 20.0, 30.0];
    let pairs = zip(&a, &b);
    assert_eq!(pairs.len(), 3);
    assert_eq!(pairs[0], (1.0, 10.0));
    assert_eq!(pairs[1], (2.0, 20.0));
    assert_eq!(pairs[2], (3.0, 30.0));
}

#[test]
fn zip_truncates_to_shorter_a_shorter() {
    let a = vec![1.0, 2.0];
    let b = vec![10.0, 20.0, 30.0];
    assert_eq!(zip(&a, &b).len(), 2);
}

#[test]
fn zip_truncates_to_shorter_b_shorter() {
    let a = vec![1.0, 2.0, 3.0, 4.0];
    let b = vec![10.0, 20.0];
    assert_eq!(zip(&a, &b).len(), 2);
}

#[test]
fn zip_empty_a_returns_empty() {
    let a: Vec<f64> = vec![];
    let b = vec![1.0, 2.0];
    assert!(zip(&a, &b).is_empty());
}

#[test]
fn zip_empty_b_returns_empty() {
    let a = vec![1.0, 2.0];
    let b: Vec<f64> = vec![];
    assert!(zip(&a, &b).is_empty());
}

#[test]
fn cycle_b_cycles_to_match_a() {
    let a = vec![1.0, 2.0, 3.0, 4.0, 5.0];
    let b = vec![10.0, 20.0, 30.0];
    let pairs = cycle(&a, &b);
    assert_eq!(pairs.len(), 5);
    let b_vals: Vec<f64> = pairs.iter().map(|(_, bv)| *bv).collect();
    assert_eq!(b_vals, vec![10.0, 20.0, 30.0, 10.0, 20.0]);
}

#[test]
fn cycle_a_cycles_to_match_b() {
    let a = vec![1.0, 2.0];
    let b = vec![10.0, 20.0, 30.0, 40.0];
    let pairs = cycle(&a, &b);
    assert_eq!(pairs.len(), 4);
    let a_vals: Vec<f64> = pairs.iter().map(|(av, _)| *av).collect();
    assert_eq!(a_vals, vec![1.0, 2.0, 1.0, 2.0]);
}

#[test]
fn cycle_equal_lengths_same_as_zip() {
    let a = vec![1.0, 2.0, 3.0];
    let b = vec![10.0, 20.0, 30.0];
    assert_eq!(zip(&a, &b), cycle(&a, &b));
}

#[test]
fn cycle_produces_longer_length() {
    let a = vec![1.0, 2.0, 3.0, 4.0, 5.0];
    let b = vec![10.0];
    let pairs = cycle(&a, &b);
    assert_eq!(pairs.len(), 5);
    assert!(pairs.iter().all(|(_, bv)| *bv == 10.0));
}

// ─── Further cases ──────────────────────────────────────────────────────────

#[test]
fn pairs_of_different_value_types() {
    let a = vec![1u8, 2, 3];
    let b = vec!['x', 'y'];
    assert_eq!(zip(&a, &b), vec![(1, 'x'), (2, 'y')]);
    assert_eq!(cycle(&a, &b), vec![(1, 'x'), (2, 'y'), (3, 'x')]);
}

#[test]
fn strategies_are_distinct() {
    assert_ne!(Combine::Zip, Combine::Cycle);
    assert_ne!(Combine::Cycle, Combine::Polymetric);
    let c = Combine::Polymetric;
    let d = c;
    assert_eq!(c, d);
}
