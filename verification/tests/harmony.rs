use metaritual::harmony::{note_to_pc, pc_dist, voice_leading_distance, Chord, VoiceLeadingGraph};
use rand::rngs::SmallRng;
use rand::{Rng, SeedableRng};
use std::collections::HashSet;

#[test]
fn test_pc_dist() {
    assert_eq!(pc_dist(0, 0), 0);
    assert_eq!(pc_dist(0, 1), 1);
    assert_eq!(pc_dist(0, 6), 6); // tritone
    assert_eq!(pc_dist(0, 7), 5); // perfect fifth
    assert_eq!(pc_dist(11, 0), 1);
    assert_eq!(pc_dist(0, 11), 1);
}

#[test]
fn test_voice_leading_distance() {
    // C major [0,4,7] → C minor [0,3,7]: one voice moves by 1
    assert_eq!(voice_leading_distance(&[0, 4, 7], &[0, 3, 7]), 1);
    // C major → E minor [4,7,11]: L operation, one voice moves by 1
    assert_eq!(voice_leading_distance(&[0, 4, 7], &[4, 7, 11]), 1);
    // Identical chords
    assert_eq!(voice_leading_distance(&[0, 4, 7], &[0, 4, 7]), 0);
}

#[test]
fn test_note_to_pc() {
    assert_eq!(note_to_pc("C"), Some(0));
    assert_eq!(note_to_pc("C#"), Some(1));
    assert_eq!(note_to_pc("Db"), Some(1));
    assert_eq!(note_to_pc("F#"), Some(6));
    assert_eq!(note_to_pc("Bb"), Some(10));
    assert_eq!(note_to_pc("B"), Some(11));
}

#[test]
fn test_graph_seventh_chord_count() {
    let g = VoiceLeadingGraph::new(false, 2);
    // 7 types × 12 transpositions + 1 type (dim7) × 3 distinct = 87
    assert_eq!(g.chords.len(), 87);
}

#[test]
fn test_graph_triad_count() {
    let g = VoiceLeadingGraph::new(true, 2);
    assert!(g.chords.len() >= 52 && g.chords.len() <= 68);
}

#[test]
fn test_find_chord() {
    let g = VoiceLeadingGraph::new(false, 2);
    let c = g.find(0, "maj7").unwrap();
    assert_eq!(c.root, 0);
    assert_eq!(c.kind_name, "maj7");
    assert_eq!(c.notes, vec![0, 4, 7, 11]);

    let d = g.find(2, "min7").unwrap();
    assert_eq!(d.root, 2);
    assert_eq!(d.notes, vec![0, 2, 5, 9]); // D F A C sorted = [0,2,5,9]
}

#[test]
fn test_neighbors() {
    let g = VoiceLeadingGraph::new(false, 2);
    let c7 = g.find(0, "dom7").unwrap();
    let neighbors_d1 = g.neighbors(c7, Some(1));
    let neighbors_d2 = g.neighbors(c7, Some(2));
    assert!(!neighbors_d1.is_empty(), "dom7 should have distance-1 neighbors");
    assert!(neighbors_d2.len() > neighbors_d1.len(), "dom7 should have more neighbors at d≤2");
    for (_, d) in &neighbors_d1 {
        assert_eq!(*d, 1);
    }
}

#[test]
fn test_shortest_path_exists() {
    let g = VoiceLeadingGraph::new(false, 2);
    let start = g.find(0, "maj7").unwrap();
    let end = g.find(6, "minmaj7").unwrap();
    let path = g.shortest_path(start, end);
    assert!(path.is_some());
    let path = path.unwrap();
    assert!(path.len() <= 5); // diameter is 4
    assert_eq!(path.first().unwrap().notes, start.notes);
    assert_eq!(path.last().unwrap().notes, end.notes);
}

#[test]
fn test_smoothest_path() {
    let g = VoiceLeadingGraph::new(false, 2);
    let start = g.find(0, "dom7").unwrap();
    let end = g.find(1, "dim7").unwrap();
    let path = g.smoothest_path(start, end);
    assert!(path.is_some());
    let path = path.unwrap();
    assert_eq!(path.first().unwrap().notes, start.notes);
    assert_eq!(path.last().unwrap().notes, end.notes);
}

#[test]
fn test_random_walk_length() {
    let g = VoiceLeadingGraph::new(false, 2);
    let start = g.find(0, "maj7").unwrap();
    let walk = g.random_walk(start, 8, 1, false, 42);
    assert_eq!(walk.len(), 9); // start + 8 steps
}

#[test]
fn test_random_walk_avoid_revisit() {
    let g = VoiceLeadingGraph::new(false, 2);
    let start = g.find(0, "maj7").unwrap();
    let walk = g.random_walk(start, 4, 2, true, 42);
    let unique: HashSet<Vec<u8>> = walk.iter().map(|c| c.notes.clone()).collect();
    assert_eq!(unique.len(), walk.len());
}

#[test]
fn test_plr_orbit() {
    let g = VoiceLeadingGraph::new(true, 2);
    let c_major = g.find(0, "major").unwrap();
    let orbit = g.orbit(c_major, &['P', 'L'], 24);
    assert!(orbit.len() <= 8);
    assert_eq!(orbit.last().unwrap().notes, c_major.notes);
}

#[test]
fn test_dim7_hub_connectivity() {
    let g = VoiceLeadingGraph::new(false, 2);
    let dim7s: Vec<&Chord> = g.chords.iter().filter(|c| c.kind_name == "dim7").collect();
    assert_eq!(dim7s.len(), 3);
    for d in &dim7s {
        let n = g.neighbors(d, Some(1));
        assert_eq!(n.len(), 8, "dim7 {} has {} neighbors, expected 8", d.label(), n.len());
    }
}

#[test]
fn test_chord_label() {
    let g = VoiceLeadingGraph::new(false, 2);
    let c = g.find(0, "maj7").unwrap();
    assert_eq!(c.label(), "Cmaj7");
    let d = g.find(0, "dom7").unwrap();
    assert_eq!(d.label(), "C7");
    let e = g.find(0, "min7").unwrap();
    assert_eq!(e.label(), "Cm7");
}

// ─── Further cases ──────────────────────────────────────────────────────────

fn path_cost(path: &[Chord]) -> u32 {
    path.windows(2).map(|w| voice_leading_distance(&w[0].notes, &w[1].notes) as u32).sum()
}

#[test]
fn pc_dist_is_symmetric_and_folds() {
    for a in 0u8..12 {
        assert_eq!(pc_dist(a, a), 0);
        for b in 0u8..12 {
            assert_eq!(pc_dist(a, b), pc_dist(b, a));
            assert!(pc_dist(a, b) <= 6);
        }
    }
    assert_eq!(pc_dist(2, 9), 5);
    assert_eq!(pc_dist(3, 9), 6);
}

#[test]
fn voice_leading_to_itself_is_zero() {
    assert_eq!(voice_leading_distance(&[0, 3, 6, 9], &[0, 3, 6, 9]), 0);
    assert_eq!(voice_leading_distance(&[], &[]), 0);
    // Cmaj7 → Am7: one voice moves by two semitones.
    assert_eq!(voice_leading_distance(&[0, 4, 7, 11], &[0, 4, 7, 9]), 2);
    // The best assignment is not the one that keeps voice order.
    assert_eq!(voice_leading_distance(&[0, 4, 7], &[3, 6, 11]), 3);
}

#[test]
fn note_to_pc_edge_cases() {
    assert_eq!(note_to_pc("  a  "), Some(9));
    assert_eq!(note_to_pc("c##"), Some(2));
    assert_eq!(note_to_pc("Cb"), Some(11));
    assert_eq!(note_to_pc("Ebb"), Some(2));
    assert_eq!(note_to_pc("G#x"), Some(8));
    assert_eq!(note_to_pc(""), None);
    assert_eq!(note_to_pc("   "), None);
    assert_eq!(note_to_pc("H"), None);
    assert_eq!(note_to_pc("#C"), None);
}

#[test]
fn chord_root_names_and_labels() {
    let g = VoiceLeadingGraph::new(true, 2);
    let a_minor = g.find(9, "minor").unwrap();
    assert_eq!(a_minor.root_name(), "A");
    assert_eq!(a_minor.label(), "Am");
    let e_flat = g.find(3, "major").unwrap();
    assert_eq!(e_flat.label(), "Eb");
    let s7 = VoiceLeadingGraph::new(false, 2);
    assert_eq!(s7.find(11, "hdim7").unwrap().label(), "Bø7");
    assert_eq!(s7.find(6, "augdom7").unwrap().label(), "F#aug7");
}

#[test]
fn find_unknown_type_is_none() {
    let g = VoiceLeadingGraph::new(false, 2);
    assert!(g.find(0, "major").is_none());
    assert!(g.find(0, "nonsense").is_none());
}

#[test]
fn find_dim7_shares_one_chord_per_three_roots() {
    let g = VoiceLeadingGraph::new(false, 2);
    let a = g.find(0, "dim7").unwrap();
    let b = g.find(3, "dim7").unwrap();
    assert_eq!(a.notes, b.notes);
    assert_eq!(a.root, b.root);
}

#[test]
fn neighbors_sorted_and_symmetric() {
    let g = VoiceLeadingGraph::new(false, 2);
    let c = g.find(0, "maj7").unwrap();
    let ns = g.neighbors(c, None);
    assert!(!ns.is_empty());
    for w in ns.windows(2) {
        assert!(w[0].1 < w[1].1 || (w[0].1 == w[1].1 && w[0].0.label() <= w[1].0.label()));
    }
    for (n, d) in &ns {
        assert!(*d >= 1 && *d <= 2);
        let back = g.neighbors(n, None);
        assert!(back.iter().any(|(m, e)| m.notes == c.notes && e == d));
    }
}

#[test]
fn neighbors_of_foreign_chord_is_empty() {
    let g = VoiceLeadingGraph::new(true, 2);
    let foreign = Chord { root: 0, kind_name: "cluster".to_string(), notes: vec![0, 1, 2] };
    assert!(g.neighbors(&foreign, None).is_empty());
    assert!(g.shortest_path(&foreign, &foreign).is_none());
    assert!(g.smoothest_path(&foreign, &foreign).is_none());
    let walk = g.random_walk(&foreign, 5, 2, false, 1);
    assert_eq!(walk.len(), 1);
    assert_eq!(walk[0].notes, foreign.notes);
}

#[test]
fn path_to_itself_is_one_chord() {
    let g = VoiceLeadingGraph::new(false, 2);
    let c = g.find(5, "min7").unwrap();
    let p = g.shortest_path(c, c).unwrap();
    assert_eq!(p.len(), 1);
    assert_eq!(p[0].notes, c.notes);
    let q = g.smoothest_path(c, c).unwrap();
    assert_eq!(q.len(), 1);
}

#[test]
fn paths_follow_edges_and_compare() {
    let g = VoiceLeadingGraph::new(false, 2);
    let start = g.find(0, "maj7").unwrap();
    for root in 0u8..12 {
        let end = g.find(root, "min7").unwrap();
        let short = g.shortest_path(start, end).unwrap();
        let smooth = g.smoothest_path(start, end).unwrap();
        for w in short.windows(2).chain(smooth.windows(2)) {
            let d = voice_leading_distance(&w[0].notes, &w[1].notes);
            assert!(d >= 1 && d <= 2);
        }
        // Fewest hops never exceed the smoothest path's hops, and the
        // smoothest path never weighs more than the shortest one.
        assert!(short.len() <= smooth.len());
        assert!(path_cost(&smooth) <= path_cost(&short));
    }
}

#[test]
fn unreachable_end_gives_none() {
    // With edges of weight at most 0 no two chords are joined.
    let g = VoiceLeadingGraph::new(true, 0);
    let a = g.find(0, "major").unwrap();
    let b = g.find(7, "major").unwrap();
    assert!(g.shortest_path(a, b).is_none());
    assert!(g.smoothest_path(a, b).is_none());
    assert!(g.neighbors(a, None).is_empty());
    let walk = g.random_walk(a, 6, 2, false, 3);
    assert_eq!(walk.len(), 1);
}

#[test]
fn random_walk_steps_within_distance() {
    let g = VoiceLeadingGraph::new(false, 2);
    let start = g.find(4, "dom7").unwrap();
    let walk = g.random_walk(start, 20, 1, false, 7);
    assert_eq!(walk.len(), 21);
    assert_eq!(walk[0].notes, start.notes);
    for w in walk.windows(2) {
        assert_eq!(voice_leading_distance(&w[0].notes, &w[1].notes), 1);
    }
    let again = g.random_walk(start, 20, 1, false, 7);
    let a: Vec<Vec<u8>> = walk.iter().map(|c| c.notes.clone()).collect();
    let b: Vec<Vec<u8>> = again.iter().map(|c| c.notes.clone()).collect();
    assert_eq!(a, b);
}

#[test]
fn orbit_of_seventh_chord_stops_at_start() {
    let g = VoiceLeadingGraph::new(false, 2);
    let c = g.find(0, "maj7").unwrap();
    let o = g.orbit(c, &['P'], 5);
    assert_eq!(o.len(), 1);
    assert_eq!(o[0].notes, c.notes);
}

#[test]
fn orbit_plr_visits_distinct_chords() {
    let g = VoiceLeadingGraph::new(true, 2);
    let c = g.find(0, "major").unwrap();
    let o = g.orbit(c, &['P'], 10);
    // P twice returns to the start.
    assert_eq!(o.len(), 3);
    assert_eq!(o[1].label(), "Cm");
    assert_eq!(o[2].notes, c.notes);
    let lr = g.orbit(c, &['L', 'R'], 24);
    assert_eq!(lr.last().unwrap().notes, c.notes);
    assert_eq!(lr.len(), 25);
    let none = g.orbit(c, &['L'], 0);
    assert_eq!(none.len(), 1);
}

#[test]
fn custom_chord_types() {
    let types = vec![("fifth".to_string(), vec![0u8, 7])];
    let g = VoiceLeadingGraph::from_types(types, 1);
    assert_eq!(g.chords.len(), 12);
    let c5 = g.find(0, "fifth").unwrap();
    assert_eq!(c5.notes, vec![0, 7]);
    assert_eq!(c5.label(), "Cfifth");
    // Any other fifth moves its voices by at least 2 in all, so none is
    // within distance 1.
    assert!(g.neighbors(c5, None).is_empty());
}

#[test]
fn walk_with_draws_picks_by_position() {
    let g = VoiceLeadingGraph::new(false, 2);
    let start = g.find(0, "maj7").unwrap();
    let pos = |c: &Chord| g.chords.iter().position(|x| x.notes == c.notes).unwrap();
    let cands = |i: usize| -> Vec<usize> {
        (0..g.chords.len())
            .filter(|&j| j != i && voice_leading_distance(&g.chords[i].notes, &g.chords[j].notes) <= 1)
            .collect()
    };
    // Draw 0 always takes the neighbour listed first; draw 1 the second.
    let walk = g.walk_with_draws(start, &vec![0, 1, 0], 1, false);
    assert_eq!(walk.len(), 4);
    let i0 = pos(start);
    let i1 = cands(i0)[0];
    let c1 = cands(i1);
    let i2 = c1[1 % c1.len()];
    let i3 = cands(i2)[0];
    assert_eq!(pos(&walk[0]), i0);
    assert_eq!(pos(&walk[1]), i1);
    assert_eq!(pos(&walk[2]), i2);
    assert_eq!(pos(&walk[3]), i3);
}

#[test]
fn walk_with_draws_stops_when_stuck() {
    let g = VoiceLeadingGraph::new(true, 0);
    let start = g.find(2, "minor").unwrap();
    let walk = g.walk_with_draws(start, &vec![5, 6, 7], 3, true);
    assert_eq!(walk.len(), 1);
    assert_eq!(walk[0].notes, start.notes);
    let none = g.walk_with_draws(start, &vec![], 3, true);
    assert_eq!(none.len(), 1);
}

#[test]
fn random_walk_is_a_walk_with_generator_draws() {
    let g = VoiceLeadingGraph::new(false, 2);
    let start = g.find(9, "min7").unwrap();
    for &(seed, avoid) in &[(42u64, false), (7, true), (1234, true)] {
        let mut rng = SmallRng::seed_from_u64(seed);
        let draws: Vec<u32> = (0..12).map(|_| rng.random::<u32>()).collect();
        let a = g.random_walk(start, 12, 2, avoid, seed);
        let b = g.walk_with_draws(start, &draws, 2, avoid);
        let na: Vec<Vec<u8>> = a.iter().map(|c| c.notes.clone()).collect();
        let nb: Vec<Vec<u8>> = b.iter().map(|c| c.notes.clone()).collect();
        assert_eq!(na, nb);
    }
}

#[test]
fn describe_gives_label_and_note_names() {
    let g = VoiceLeadingGraph::new(false, 2);
    assert_eq!(g.find(0, "maj7").unwrap().describe(), "Cmaj7 [C E G B]");
    assert_eq!(g.find(11, "hdim7").unwrap().describe(), "Bø7 [D F A B]");
    let t = VoiceLeadingGraph::new(true, 2);
    assert_eq!(t.find(9, "minor").unwrap().describe(), "Am [C E A]");
    assert_eq!(t.find(3, "major").unwrap().describe(), "Eb [Eb G Bb]");
}

#[test]
fn summary_counts_chords_and_edges() {
    assert_eq!(VoiceLeadingGraph::new(true, 2).summary(), "VoiceLeadingGraph(52 chords, 324 edges)");
    assert_eq!(VoiceLeadingGraph::new(false, 2).summary(), "VoiceLeadingGraph(87 chords, 648 edges)");
    assert_eq!(VoiceLeadingGraph::new(true, 1).summary(), "VoiceLeadingGraph(52 chords, 96 edges)");
    assert_eq!(VoiceLeadingGraph::new(true, 0).summary(), "VoiceLeadingGraph(52 chords, 0 edges)");
}

#[test]
fn plr_operations_are_involutions() {
    let g = VoiceLeadingGraph::new(true, 2);
    for root in 0..12u8 {
        for kind in ["major", "minor"] {
            for op in ['P', 'L', 'R'] {
                let c = g.find(root, kind).unwrap();
                let o = g.orbit(c, &[op], 2);
                assert_eq!(o.len(), 3);
                assert_ne!(o[1].kind_name, c.kind_name);
                let shared = c.notes.iter().filter(|n| o[1].notes.contains(n)).count();
                assert_eq!(shared, 2);
                assert_eq!(o[2].notes, c.notes);
            }
        }
    }
    let aug = g.find(0, "augmented").unwrap();
    assert_eq!(g.orbit(aug, &['P'], 4).len(), 1);
}

fn labels_of(path: &[Chord]) -> Vec<String> {
    path.iter().map(|c| c.label()).collect()
}

#[test]
fn shortest_path_takes_the_first_of_equal_paths() {
    let g = VoiceLeadingGraph::new(true, 1);
    let p = g.shortest_path(g.find(0, "major").unwrap(), g.find(6, "major").unwrap()).unwrap();
    assert_eq!(labels_of(&p), vec!["C", "Cm", "Ebaug", "Eb", "Ebm", "Daug", "F#"]);
    let s7 = VoiceLeadingGraph::new(false, 1);
    let q = s7.shortest_path(s7.find(0, "maj7").unwrap(), s7.find(7, "min7").unwrap()).unwrap();
    assert_eq!(labels_of(&q), vec!["Cmaj7", "C7", "C#°7", "Eø7", "Gm7"]);
    let t2 = VoiceLeadingGraph::new(true, 2);
    let r = t2.shortest_path(t2.find(0, "major").unwrap(), t2.find(6, "major").unwrap()).unwrap();
    assert_eq!(labels_of(&r), vec!["C", "C#m", "C#aug", "F#"]);
}

#[test]
fn smoothest_path_takes_the_first_of_equal_costs() {
    let g = VoiceLeadingGraph::new(true, 1);
    let p = g.smoothest_path(g.find(0, "major").unwrap(), g.find(6, "major").unwrap()).unwrap();
    assert_eq!(labels_of(&p), vec!["C", "Caug", "C#m", "C#", "C#aug", "F#m", "F#"]);
    let s7 = VoiceLeadingGraph::new(false, 1);
    let q = s7.smoothest_path(s7.find(0, "maj7").unwrap(), s7.find(7, "min7").unwrap()).unwrap();
    assert_eq!(labels_of(&q), vec!["Cmaj7", "C#ø7", "Em7", "G7", "Gm7"]);
    let t2 = VoiceLeadingGraph::new(true, 2);
    let r = t2.smoothest_path(t2.find(0, "major").unwrap(), t2.find(6, "major").unwrap()).unwrap();
    assert_eq!(labels_of(&r), vec!["C", "Ebaug", "Ebm", "F#"]);
}

#[test]
fn apply_plr_is_an_involution_on_triads() {
    let g = VoiceLeadingGraph::new(true, 2);
    for root in 0..12u8 {
        for kind in ["major", "minor"] {
            let c = g.find(root, kind).unwrap();
            for op in ['P', 'L', 'R'] {
                let r = g.apply_plr(c, op).unwrap();
                assert_ne!(r.kind_name, c.kind_name);
                let shared = c.notes.iter().filter(|n| r.notes.contains(n)).count();
                assert_eq!(shared, 2);
                let back = g.apply_plr(&r, op).unwrap();
                assert_eq!(back, c.clone());
            }
            assert!(g.apply_plr(c, 'Q').is_none());
        }
    }
    let e = g.find(4, "major").unwrap();
    assert_eq!(g.apply_plr(e, 'P').unwrap().label(), "Em");
    assert_eq!(g.apply_plr(e, 'L').unwrap().label(), "Abm");
    assert_eq!(g.apply_plr(e, 'R').unwrap().label(), "C#m");
    let aug = g.find(0, "augmented").unwrap();
    assert!(g.apply_plr(aug, 'P').is_none());
}

#[test]
fn note_to_pc_trims_unicode_white_space() {
    assert_eq!(note_to_pc("\u{3000} C# \t"), Some(1));
    assert_eq!(note_to_pc("\u{a0}Bb\u{2009}\n"), Some(10));
    assert_eq!(note_to_pc("\u{85}\u{2028}"), None);
    assert_eq!(note_to_pc(" \u{200b}C"), None);
}
