use rand::Rng;
use rand::SeedableRng;
use rustyread::changeset::ChangeSet;
use rustyread::injector::{place_glitch, point_edit, random_error, ErrorInjector, PointEdit};
use rustyread::{random_base, random_seq};

fn inject(seed: u64, identity: f64, k: usize) -> (Vec<u8>, Vec<u8>, u64, Vec<u8>) {
    let mut rng = rand::rngs::StdRng::seed_from_u64(seed);
    let raw = random_seq(100, &mut rng);
    let target = (1.0 - identity) * raw.len() as f64;
    let mut inj = ErrorInjector::new(k, target.ceil() as u64);
    while let Some(pos) = inj.next_position(raw.len()) {
        let owed = target - inj.changes.total_edit() as f64;
        let p = (owed / (raw.len() - pos) as f64).clamp(0.0, 1.0);
        let kmer = if rng.gen_bool(p) {
            let at = rng.gen_range(0..k);
            let kind = match rng.gen_range(1..=3) {
                1 => PointEdit::Substitution,
                2 => PointEdit::Insertion,
                _ => PointEdit::Deletion,
            };
            Some(point_edit(&raw[pos..pos + k], at, kind, random_base(&mut rng)))
        } else {
            None
        };
        inj.advance(kmer, &raw);
    }
    let (err, cigar, edit) = inj.finish(&raw);
    (err, cigar, edit, raw)
}

#[test]
fn injection_is_reproducible() {
    let first = inject(42, 0.95, 7);
    let second = inject(42, 0.95, 7);
    assert_eq!(first, second);
    let (err, cigar, edit, raw) = first;
    assert!(edit >= 5 || err != raw);
    assert_eq!(cigar.iter().filter(|&&c| c != b'I').count(), raw.len());
    assert_eq!(cigar.iter().filter(|&&c| c != b'D').count(), err.len());
    assert_eq!(cigar.iter().filter(|&&c| c != b'=').count() as u64, edit);
    let (mut i, mut j) = (0, 0);
    for &op in &cigar {
        match op {
            b'=' => {
                assert_eq!(err[i], raw[j]);
                i += 1;
                j += 1;
            }
            b'X' => {
                assert_ne!(err[i], raw[j]);
                i += 1;
                j += 1;
            }
            b'I' => i += 1,
            b'D' => j += 1,
            _ => panic!("unexpected column"),
        }
    }
    assert_eq!((i, j), (err.len(), raw.len()));
}

#[test]
fn random_error_() {
    let mut rng = rand::rngs::StdRng::seed_from_u64(42);

    assert_eq!(b"AAAGAAA", &random_error(b"AAAAAAA", &mut rng)[..]);
    assert_eq!(b"AAAAAAG", &random_error(b"AAAAAAA", &mut rng)[..]);
    assert_eq!(b"AAAAAA", &random_error(b"AAAAAAA", &mut rng)[..]);
    assert_eq!(b"AAAATAAA", &random_error(b"AAAAAAA", &mut rng)[..]);
    assert_eq!(b"ATAAAAA", &random_error(b"AAAAAAA", &mut rng)[..]);
    assert_eq!(b"AAAAAA", &random_error(b"AAAAAAA", &mut rng)[..]);
    assert_eq!(b"AAAAAAAA", &random_error(b"AAAAAAA", &mut rng)[..]);
    assert_eq!(b"AAGAAAAA", &random_error(b"AAAAAAA", &mut rng)[..]);
}

#[test]
fn random_errors_are_single_edits() {
    let mut rng = rand::rngs::StdRng::seed_from_u64(42);
    for _ in 0..200 {
        let kmer = b"ACGTACG";
        let r = random_error(kmer, &mut rng);
        let diff = r.len() as i64 - kmer.len() as i64;
        assert!((-1..=1).contains(&diff));
        if diff == 0 {
            let changed = r.iter().zip(kmer.iter()).filter(|(a, b)| a != b).count();
            assert_eq!(changed, 1);
        }
    }
}

#[test]
fn exact_identity_leaves_sequence() {
    let (err, cigar, edit, raw) = inject(7, 1.0, 7);
    assert_eq!(err, raw);
    assert_eq!(cigar, vec![b'='; raw.len()]);
    assert_eq!(edit, 0);
}

#[test]
fn window_longer_than_sequence_yields_nothing() {
    let raw = b"ACGTACG".to_vec();
    let inj = ErrorInjector::new(7, 5);
    assert_eq!(inj.next_position(raw.len()), None);
    let (err, _, edit) = inj.finish(&raw);
    assert_eq!(err, raw);
    assert_eq!(edit, 0);
}

#[test]
fn scan_stops_when_budget_cannot_be_met() {
    let inj = ErrorInjector::new(3, 50);
    assert_eq!(inj.next_position(20), None);
    let inj = ErrorInjector::new(3, 5);
    assert_eq!(inj.next_position(20), Some(0));
}

#[test]
fn point_edits() {
    assert_eq!(point_edit(b"AAAAAAA", 3, PointEdit::Substitution, b'G'), b"AAAGAAA".to_vec());
    assert_eq!(point_edit(b"AAAAAAA", 1, PointEdit::Insertion, b'T'), b"ATAAAAAA".to_vec());
    assert_eq!(point_edit(b"ACGTACG", 0, PointEdit::Deletion, b'T'), b"CGTACG".to_vec());
    assert_eq!(point_edit(b"ACGTACG", 6, PointEdit::Deletion, b'T'), b"ACGTAC".to_vec());
}

#[test]
fn glitch_placement() {
    let (start, change) = place_glitch(10, 5, 3, b"ACGT".to_vec(), 100).unwrap();
    assert_eq!(start, 15);
    assert_eq!(change.begin(), 15);
    assert_eq!(change.end_raw(), 18);
    assert_eq!(change.seq(), &b"ACGT".to_vec());
    assert!(place_glitch(90, 8, 3, b"A".to_vec(), 100).is_none());
    assert!(place_glitch(90, 7, 3, b"A".to_vec(), 100).is_some());
    assert!(place_glitch(usize::MAX, 1, 0, Vec::new(), 100).is_none());
}

#[test]
fn glitches_then_errors() {
    let raw = vec![b'A'; 60];
    let mut inj = ErrorInjector::new(5, 100);
    let (_, g) = place_glitch(0, 20, 4, b"CC".to_vec(), raw.len()).unwrap();
    inj.add_glitch(g, &raw);
    assert_eq!(inj.changes.total_edit(), 4);
    let empty = ChangeSet::new();
    assert_eq!(empty.total_edit(), 0);
    let (err, cigar, edit) = inj.finish(&raw);
    assert_eq!(err.len(), 58);
    assert_eq!(&err[20..22], b"CC");
    assert_eq!(edit, 4);
    assert_eq!(cigar.len(), 60);
}
