use metaritual::construct::{bjorklund, euclidean_rotated, stacked_intervals};

fn hits(s: &[bool]) -> usize {
    s.iter().filter(|&&b| b).count()
}

#[test]
fn euclidean_hit_and_step_count() {
    let p = euclidean_rotated(3, 8, 0);
    assert_eq!(p.len(), 8);
    assert_eq!(hits(&p), 3);
}

#[test]
fn euclidean_all_hits() {
    let p = euclidean_rotated(5, 5, 0);
    assert_eq!(hits(&p), 5);
    assert!(p.iter().all(|&b| b));
}

#[test]
fn euclidean_no_hits() {
    let p = euclidean_rotated(0, 8, 0);
    assert_eq!(hits(&p), 0);
    assert_eq!(p.len(), 8);
}

#[test]
fn euclidean_3_8_known_pattern() {
    // E(3,8) = [1,0,0,1,0,0,1,0] — the standard tresillo
    let bools = euclidean_rotated(3, 8, 0);
    assert_eq!(bools, vec![true, false, false, true, false, false, true, false]);
}

#[test]
fn euclidean_rotated_shifts_pattern() {
    let p0 = euclidean_rotated(3, 8, 0);
    let p1 = euclidean_rotated(3, 8, 3);
    assert_eq!(hits(&p0), hits(&p1));
    let starts0: Vec<usize> = (0..8).filter(|&i| p0[i]).collect();
    let starts1: Vec<usize> = (0..8).filter(|&i| p1[i]).collect();
    assert_ne!(starts0, starts1);
}

#[test]
fn euclidean_zero_steps_is_empty() {
    assert!(euclidean_rotated(3, 0, 0).is_empty());
    assert!(euclidean_rotated(3, 0, 5).is_empty());
}

#[test]
fn euclidean_hits_clamped_to_steps() {
    let p = euclidean_rotated(10, 4, 0);
    assert_eq!(hits(&p), 4);
}

// ─── Further cases ──────────────────────────────────────────────────────────

#[test]
fn bjorklund_known_rhythms() {
    let x = true;
    let o = false;
    assert_eq!(bjorklund(5, 8), vec![x, o, x, x, o, x, x, o]);
    assert_eq!(bjorklund(2, 5), vec![x, o, x, o, o]);
    assert_eq!(bjorklund(3, 4), vec![x, x, x, o]);
    assert_eq!(bjorklund(4, 12), vec![x, o, o, x, o, o, x, o, o, x, o, o]);
    assert_eq!(bjorklund(7, 16), vec![x, o, o, x, o, x, o, x, o, o, x, o, x, o, x, o]);
    assert_eq!(bjorklund(1, 4), vec![x, o, o, o]);
}

#[test]
fn bjorklund_edges() {
    assert_eq!(bjorklund(0, 3), vec![false, false, false]);
    assert_eq!(bjorklund(4, 4), vec![true; 4]);
    assert_eq!(bjorklund(9, 2), vec![true, true]);
    assert!(bjorklund(0, 0).is_empty());
    assert!(bjorklund(3, 0).is_empty());
}

#[test]
fn bjorklund_counts_for_all_small_inputs() {
    for steps in 0..40usize {
        for h in 0..45usize {
            let r = bjorklund(h, steps);
            assert_eq!(r.len(), steps);
            assert_eq!(hits(&r), h.min(steps));
        }
    }
}

#[test]
fn rotation_wraps_modulo_steps() {
    let base = euclidean_rotated(3, 8, 0);
    let r1 = euclidean_rotated(3, 8, 1);
    let r9 = euclidean_rotated(3, 8, 9);
    assert_eq!(r1, r9);
    assert_eq!(r1, vec![false, false, true, false, false, true, false, true]);
    assert_eq!(euclidean_rotated(3, 8, 8), base);
}

#[test]
fn bjorklund_rests_between_hits_differ_by_at_most_one() {
    for steps in 1..40usize {
        for h in 1..=steps {
            let r = bjorklund(h, steps);
            assert!(r[0]);
            let mut gaps: Vec<usize> = Vec::new();
            for &b in &r {
                if b {
                    gaps.push(0);
                } else {
                    *gaps.last_mut().unwrap() += 1;
                }
            }
            assert_eq!(gaps.len(), h);
            let lo = *gaps.iter().min().unwrap();
            let hi = *gaps.iter().max().unwrap();
            assert!(hi - lo <= 1, "E({},{}) = {:?}", h, steps, r);
            assert_eq!(lo, (steps - h) / h);
        }
    }
}

#[test]
fn stacked_interval_sets() {
    assert_eq!(stacked_intervals(5, 4), vec![0, 5, 10, 15]);
    assert_eq!(stacked_intervals(7, 3), vec![0, 7, 14]);
    assert!(stacked_intervals(7, 0).is_empty());
    // Large stacks keep the low byte, as a byte conversion does.
    assert_eq!(stacked_intervals(7, 40)[37], (37 * 7 % 256) as u8);
}
