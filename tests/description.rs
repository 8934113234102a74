use rustyread::description::{Origin, ReadType};

#[test]
fn origin() {
    let mut test = Origin::reference("bépo".to_string(), '+', 100, 400);

    assert_eq!("bépo,+strand,100-400", test.to_string());

    test.read_type = ReadType::Junk;

    assert_eq!("junk_seq", test.to_string());

    test.read_type = ReadType::Random;

    assert_eq!("random_seq", test.to_string());

    assert_eq!("junk_seq", Origin::junk(100).to_string());

    assert_eq!("random_seq", Origin::random(100).to_string());
}

#[test]
fn origin_fields() {
    let o = Origin::junk(42);
    assert_eq!(o.start, 0);
    assert_eq!(o.end, 42);
    assert_eq!(o.strand, '*');
    assert_eq!(o.ref_id, "");
    let r = Origin::reference("chr1".to_string(), '-', 0, 7);
    assert_eq!(r.to_string(), "chr1,-strand,0-7");
}
