use rustyread::alignment::align;

#[test]
fn align_edit() {
    assert_eq!(align(b"GCCTACGCAA", b"GCCTACCCAA"), (1, b"======X===".to_vec()));
    assert_eq!(align(b"GTACTGTCGG", b"GTACTCGG"), (2, b"====II====".to_vec()));
    assert_eq!(align(b"TGTGCAAGCG", b"TGTGAAAACG"), (2, b"====X==X==".to_vec()));
    assert_eq!(align(b"CTTGTACTAT", b"CTTGACTAT"), (1, b"====I=====".to_vec()));
    assert_eq!(align(b"TATTAA", b"TATCCCCTAA"), (4, b"===DDDD===".to_vec()));
    assert_eq!(align(b"CAAG", b"CAGCAAGGCC"), (6, b"DDD===D=DD".to_vec()));
}

#[test]
fn align_empty_query() {
    assert_eq!(align(b"", b"ACG"), (3, b"DDD".to_vec()));
    assert_eq!(align(b"AC", b""), (2, b"II".to_vec()));
}
