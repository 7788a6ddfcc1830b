use metaritual::corpus::Corpus;

type Data = (f64, f64, Vec<f64>);

fn data(start: f64, duration: f64, features: &[f64]) -> Data {
    (start, duration, features.to_vec())
}

#[test]
fn corpus_starts_empty() {
    let c: Corpus<Data> = Corpus::new();
    assert!(c.is_empty());
    assert_eq!(c.len(), 0);
}

#[test]
fn corpus_ingest_and_get() {
    let mut c = Corpus::new();
    let id = c.ingest("test.wav", data(0.0, 0.5, &[0.5, 0.3]));
    assert_eq!(c.len(), 1);
    let grain = c.get(id).unwrap();
    assert_eq!(grain.source, "test.wav");
    assert_eq!(grain.data.0, 0.0);
    assert_eq!(grain.data.1, 0.5);
}

#[test]
fn corpus_assigns_unique_ids() {
    let mut c = Corpus::new();
    let id1 = c.ingest("a.wav", data(0.0, 1.0, &[0.0]));
    let id2 = c.ingest("b.wav", data(0.0, 1.0, &[1.0]));
    assert_ne!(id1, id2);
}

#[test]
fn corpus_remove() {
    let mut c = Corpus::new();
    let id = c.ingest("x.wav", data(0.0, 1.0, &[0.0]));
    assert_eq!(c.len(), 1);
    assert!(c.remove(id));
    assert_eq!(c.len(), 0);
    assert!(!c.remove(id)); // already removed
}

#[test]
fn corpus_remove_source() {
    let mut c = Corpus::new();
    c.ingest("a.wav", data(0.0, 1.0, &[0.0]));
    c.ingest("a.wav", data(1.0, 1.0, &[0.5]));
    c.ingest("b.wav", data(0.0, 1.0, &[1.0]));
    assert_eq!(c.len(), 3);
    c.remove_source("a.wav");
    assert_eq!(c.len(), 1);
    assert_eq!(c.grains()[0].source, "b.wav");
}

#[test]
fn corpus_clear() {
    let mut c = Corpus::new();
    c.ingest("x.wav", data(0.0, 1.0, &[0.0]));
    c.ingest("y.wav", data(0.0, 1.0, &[1.0]));
    c.clear();
    assert!(c.is_empty());
}

// ─── Further cases ──────────────────────────────────────────────────────────

#[test]
fn ids_count_up_and_are_not_reused() {
    let mut c = Corpus::new();
    assert_eq!(c.ingest("a", 10u32), 0);
    assert_eq!(c.ingest("b", 20), 1);
    assert!(c.remove(1));
    assert_eq!(c.ingest("c", 30), 2);
    c.clear();
    assert_eq!(c.next_id(), 3);
    assert_eq!(c.ingest("d", 40), 3);
    assert!(c.get(0).is_none());
    assert_eq!(c.get(3).unwrap().data, 40);
}

#[test]
fn get_after_remove_and_remove_keeps_order() {
    let mut c = Corpus::new();
    for (i, s) in ["x", "y", "x", "z", "y"].iter().enumerate() {
        c.ingest(s, i as u32);
    }
    assert!(!c.remove(9));
    assert!(c.remove(2));
    assert!(c.get(2).is_none());
    let ids: Vec<usize> = c.grains().iter().map(|g| g.id).collect();
    assert_eq!(ids, vec![0, 1, 3, 4]);
    c.remove_source("y");
    let left: Vec<(usize, u32)> = c.grains().iter().map(|g| (g.id, g.data)).collect();
    assert_eq!(left, vec![(0, 0), (3, 3)]);
    c.remove_source("nothing");
    assert_eq!(c.len(), 2);
    assert_eq!(c.get(3).unwrap().source, "z");
}
