use rustyread::error::Model;
use rustyread::quality::{quality_byte, QualityContexts};

fn keys(list: &[&[u8]]) -> Vec<Vec<u8>> {
    list.iter().map(|k| k.to_vec()).collect()
}

#[test]
fn contexts_need_minimal_keys() {
    let r = QualityContexts::new(keys(&[b"=", b"X"]));
    assert_eq!(r.err(), Some(Model::QualityNotMinimalCigarString));
    let q = QualityContexts::new(keys(&[b"=", b"X", b"I", b"=====", b"==="])).ok().unwrap();
    assert_eq!(q.max_k, 5);
    assert_eq!(q.find_key(b"==="), Some(4));
    assert_eq!(q.find_key(b"=X="), None);
    let q = QualityContexts::new(keys(&[b"=", b"X", b"I", b"="])).ok().unwrap();
    assert_eq!(q.find_key(b"="), Some(3));
}

#[test]
fn assign_one_context_per_output_byte() {
    let q = QualityContexts::new(keys(&[b"=", b"X", b"I", b"==="])).ok().unwrap();
    assert_eq!(q.assign(b"==X=I=D=="), vec![0, 0, 1, 0, 2, 0, 0, 0]);
    assert_eq!(q.assign(b"====="), vec![0, 3, 3, 3, 0]);
    assert_eq!(q.assign(b"DDDD"), Vec::<usize>::new());
    assert_eq!(q.assign(b""), Vec::<usize>::new());
}

#[test]
fn assign_count_matches_non_deletions() {
    let q = QualityContexts::new(keys(&[b"I", b"X", b"="])).ok().unwrap();
    let cigar = b"==XX===D==DDI=I";
    let n = cigar.iter().filter(|&&c| c != b'D').count();
    assert_eq!(q.assign(cigar).len(), n);
}

#[test]
fn quality_offset() {
    assert_eq!(quality_byte(0), b'!');
    assert_eq!(quality_byte(10), b'+');
}
