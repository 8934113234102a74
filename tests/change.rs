use rustyread::change::Change;
use rustyread::changeset::ChangeSet;

#[test]
fn build_change() {
    let raw = b"GGCGGTGTCCTTGCTAACAT";
    let mut change = Change::from_seq(3, 10, b"GGTAACC".to_vec(), raw);
    assert_eq!(change.begin(), 3);
    assert_eq!(change.end_raw(), 10);
    assert_eq!(change.end_err(), 10);
    assert_eq!(change.seq(), &b"GGTAACC".to_vec());
    assert_eq!(change.cigar(), &b"===XX==".to_vec());
    assert_eq!(change.edit(), 2);

    change = Change::from_seq(6, 13, b"GTTTG".to_vec(), raw);
    assert_eq!(change.begin(), 6);
    assert_eq!(change.end_raw(), 13);
    assert_eq!(change.end_err(), 11);
    assert_eq!(change.seq(), &b"GTTTG".to_vec());
    assert_eq!(change.cigar(), &b"==DD===".to_vec());
    assert_eq!(change.edit(), 2);

    change = Change::from_seq(6, 13, b"GTCAACTTG".to_vec(), raw);
    assert_eq!(change.begin(), 6);
    assert_eq!(change.end_raw(), 13);
    assert_eq!(change.end_err(), 15);
    assert_eq!(change.seq(), &b"GTCAACTTG".to_vec());
    assert_eq!(change.cigar(), &b"===II====".to_vec());
    assert_eq!(change.edit(), 2);
}

#[test]
fn contain() {
    let raw = b"TCAGGAAGATCCACA";
    let first = Change::from_seq(3, 15, b"GGCCGAT".to_vec(), raw);
    let second = Change::from_seq(6, 13, b"AGACCA".to_vec(), raw);

    // Containment asks both ends to fall within: the second ends at 12 in the edited
    // sequence, after the first, which ends there at 10.
    assert_eq!(first.contain(&second), false);

    let inner = Change::from_seq(6, 13, b"AGA".to_vec(), raw);
    assert_eq!(first.contain(&inner), true);

    let ray = b"TTTGCACTTGTTGCCACAGG";
    let first = Change::from_seq(2, 9, b"TGCCCTT".to_vec(), ray);
    let second = Change::from_seq(11, 18, b"TGCCTCA".to_vec(), ray);

    assert_eq!(first.contain(&second), false);
}

#[test]
fn overlap() {
    let raw = b"TCAGGAAGATCCACA";
    let first = Change::from_seq(3, 10, b"GGCCGAT".to_vec(), raw);
    let second = Change::from_seq(6, 13, b"AGACCA".to_vec(), raw);

    assert_eq!(first.overlap(&second), true);

    let ray = b"TTTGCACTTGTTGCCACAGG";
    let first = Change::from_seq(2, 9, b"TGCCCTT".to_vec(), ray);
    let second = Change::from_seq(11, 18, b"TGCCTCA".to_vec(), ray);

    assert_eq!(first.overlap(&second), false);
}

#[test]
fn merge_change() {
    let raw = b"TCAGGAAGATCCACA";
    let mut first = Change::from_seq(3, 10, b"GGCCGAT".to_vec(), raw);
    let second = Change::from_seq(6, 13, b"AGACCA".to_vec(), raw);

    first.merge(&second, raw);

    assert_eq!(first.begin(), 3);
    assert_eq!(first.end_raw(), 13);
    assert_eq!(first.end_err(), 12);
    assert_eq!(first.seq(), &b"GGCCGATCA".to_vec());
    assert_eq!(first.cigar(), &b"==XX===D==".to_vec());
    assert_eq!(first.edit(), 3);

    let rax = b"GTGACCGTTTCTC";
    let mut first = Change::from_seq(2, 9, b"GATT".to_vec(), rax);
    let second = Change::from_seq(6, 13, b"GTAACTC".to_vec(), rax);

    first.merge(&second, rax);

    assert_eq!(first.begin(), 2);
    assert_eq!(first.end_raw(), 13);
    assert_eq!(first.end_err(), 13);
    assert_eq!(first.seq(), &b"GATTGTAACTC".to_vec());
    assert_eq!(first.cigar(), &b"==DDD==I=II===".to_vec());
    assert_eq!(first.edit(), 6);

    let ray = b"TTTGCACTTGTTGCCACAGG";
    let mut first = Change::from_seq(2, 9, b"TGCCCTT".to_vec(), ray);
    let second = Change::from_seq(11, 18, b"TGCCTCA".to_vec(), ray);

    first.merge(&second, ray);

    assert_eq!(first.begin(), 2);
    assert_eq!(first.end_raw(), 9);
    assert_eq!(first.end_err(), 9);
    assert_eq!(first.seq(), &b"TGCCCTT".to_vec());
    assert_eq!(first.cigar(), &b"===X===".to_vec());
    assert_eq!(first.edit(), 1);

    assert_eq!(second.begin(), 11);
    assert_eq!(second.end_raw(), 18);
    assert_eq!(second.end_err(), 18);
    assert_eq!(second.seq(), &b"TGCCTCA".to_vec());
    assert_eq!(second.cigar(), &b"====X==".to_vec());
    assert_eq!(second.edit(), 1);
}

#[test]
fn merge_containment() {
    let raw = b"GCTATGCGTCAG";

    let mut change = Change {
        begin: 2,
        end: 9,
        seq: b"TATGCGTC".to_vec(),
        cigar: b"===I====".to_vec(),
        edit_distance: 1,
    };
    let glitche = Change {
        begin: 2,
        end: 2,
        seq: b"T".to_vec(),
        cigar: b"I".to_vec(),
        edit_distance: 1,
    };
    let del = Change {
        begin: 4,
        end: 11,
        seq: b"TGCG".to_vec(),
        cigar: b"====DDD".to_vec(),
        edit_distance: 3,
    };

    change.merge(&glitche, raw);

    assert_eq!(change.begin(), 2);
    assert_eq!(change.end_raw(), 9);
    assert_eq!(change.end_err(), 10);
    assert_eq!(change.seq(), &b"TATGCGTC".to_vec());
    assert_eq!(change.cigar(), &b"===I====".to_vec());
    assert_eq!(change.edit(), 1);

    // `del` ends at 11 in the original, past the end of `change` (9): it is not contained.
    // Merging it extends `change` by one base, and the whole replacement is aligned afresh
    // against `raw[2..10]`, which it matches.
    assert!(!change.contain(&del));
    let delta = change.merge(&del, raw);

    assert_eq!(change.begin(), 2);
    assert_eq!(change.end_raw(), 10);
    assert_eq!(change.end_err(), 10);
    assert_eq!(change.seq(), &b"TATGCGTC".to_vec());
    assert_eq!(change.cigar(), &b"========".to_vec());
    assert_eq!(change.edit(), 0);
    assert_eq!(delta, -1);
}

fn block(begin: usize, end: usize, byte: u8, len: usize) -> Change {
    Change {
        begin,
        end,
        seq: vec![byte; len],
        cigar: vec![b'I'; 0],
        edit_distance: 12,
    }
}

#[test]
fn changes() {
    let raw = vec![b'X'; 150];

    let mut input = vec![
        block(37, 50, b'A', 13),
        block(90, 100, b'B', 10),
        block(10, 30, b'C', 20),
        block(60, 70, b'D', 10),
        block(25, 35, b'E', 10),
        block(30, 40, b'F', 10),
        block(90, 95, b'G', 5),
        block(105, 120, b'H', 15),
        block(90, 110, b'I', 20),
        block(140, 150, b'J', 10),
        block(135, 145, b'K', 10),
    ];

    input.sort_by_key(|x| x.begin());

    let mut changes = ChangeSet::new();

    let edit = input
        .drain(..)
        .map(|change| changes.add_change(change, &raw))
        .collect::<Vec<i128>>();

    assert_eq!(vec![20, 5, 5, 10, 10, 10, 0, 10, 10, 10, 5], edit);
    assert_eq!(95i128, edit.iter().sum());

    assert_eq!(
        &vec![
            Change {
                begin: 10,
                end: 50,
                seq: b"CCCCCCCCCCCCCCCCCCCCEEEEEFFFFFAAAAAAAAAA".to_vec(),
                cigar: b"XXXXXXXXXXXXXXXXXXXXXXXXXXXXXXXXXXXXXXXX".to_vec(),
                edit_distance: 40
            },
            Change {
                begin: 60,
                end: 70,
                seq: b"DDDDDDDDDD".to_vec(),
                cigar: b"XXXXXXXXXX".to_vec(),
                edit_distance: 10,
            },
            Change {
                begin: 90,
                end: 120,
                seq: b"BBBBBBBBBBIIIIIIIIIIHHHHHHHHHH".to_vec(),
                cigar: b"XXXXXXXXXXXXXXXXXXXXXXXXXXXXXX".to_vec(),
                edit_distance: 30,
            },
            Change {
                begin: 135,
                end: 150,
                seq: b"KKKKKKKKKKJJJJJ".to_vec(),
                cigar: b"XXXXXXXXXXXXXXX".to_vec(),
                edit_distance: 15
            },
        ],
        changes.changes()
    );
}

#[test]
fn merge_example_over_short_reference() {
    let raw = b"TCAGGAAGATCCACA";
    let mut first = Change::from_seq(3, 10, b"GGCCGAT".to_vec(), raw);
    let second = Change::from_seq(6, 13, b"AGACCA".to_vec(), raw);
    let added = first.merge(&second, raw);
    assert_eq!(added, 1);
    assert_eq!(first.begin(), 3);
    assert_eq!(first.end_raw(), 13);
    assert_eq!(first.seq(), &b"GGCCGATCA".to_vec());
    assert_eq!(first.edit(), 3);
}

#[test]
fn unsorted_insertions_stay_separated() {
    let raw = vec![b'X'; 150];
    let mut changes = ChangeSet::new();
    let order = [
        block(90, 100, b'B', 10),
        block(10, 30, b'C', 20),
        block(135, 145, b'K', 10),
        block(25, 35, b'E', 10),
        block(60, 70, b'D', 10),
        block(5, 12, b'L', 7),
        block(95, 140, b'M', 45),
    ];
    for c in order {
        changes.add_change(c, &raw);
        let v = changes.changes();
        for w in v.windows(2) {
            assert!(w[0].end_raw() <= w[1].begin());
            assert!(w[0].end_err() <= w[1].begin());
        }
    }
    // `L` (5..12) reaches the change that starts at 10 and ends within it: it is dropped;
    // so is `M` (95..140) against the change at 135.
    let v = changes.changes();
    let begins: Vec<usize> = v.iter().map(|c| c.begin()).collect();
    assert_eq!(begins, vec![10, 60, 90, 135]);
    assert_eq!(v[0].end_raw(), 35);
    assert_eq!(v[2].end_raw(), 100);
}

#[test]
fn contained_change_leaves_set_unchanged() {
    let raw = vec![b'X'; 100];
    let mut changes = ChangeSet::new();
    changes.add_change(block(10, 40, b'A', 30), &raw);
    changes.add_change(block(60, 70, b'B', 10), &raw);
    let before = changes.clone();
    let cost = changes.add_change(block(15, 30, b'C', 10), &raw);
    assert_eq!(cost, 0);
    assert_eq!(before, changes);
    // Ends within the change that follows, which it reaches.
    let cost = changes.add_change(block(55, 65, b'E', 10), &raw);
    assert_eq!(cost, 0);
    assert_eq!(before, changes);
}

#[test]
fn change_before_all_cascades_right() {
    let raw = vec![b'X'; 100];
    let mut changes = ChangeSet::new();
    changes.add_change(block(20, 25, b'A', 5), &raw);
    changes.add_change(block(30, 35, b'B', 5), &raw);
    changes.add_change(block(50, 55, b'C', 5), &raw);
    // Starts before all, overlaps the first and contains the second.
    let delta = changes.add_change(block(10, 40, b'D', 30), &raw);
    assert_eq!(delta, 30 - 10);
    let v = changes.changes();
    assert_eq!(v.len(), 2);
    assert_eq!(v[0].begin(), 10);
    assert_eq!(v[0].end_raw(), 40);
    assert_eq!(v[1].begin(), 50);
}

#[test]
fn empty_set_linearizes_to_original() {
    let raw = b"ACGTTGCA".to_vec();
    let changes = ChangeSet::new();
    let (err, cigar, edit) = changes.linearize(&raw);
    assert_eq!(err, raw);
    assert_eq!(cigar, b"========".to_vec());
    assert_eq!(edit, 0);
    assert_eq!(changes.total_edit(), 0);
}

#[test]
fn linearize_copies_gaps_and_changes() {
    let raw = b"AAAACCCCGGGG".to_vec();
    let mut changes = ChangeSet::new();
    changes.add_change(Change::new(4, 8, b"TT".to_vec()), &raw);
    let (err, cigar, edit) = changes.linearize(&raw);
    assert_eq!(err, b"AAAATTGGGG".to_vec());
    assert_eq!(cigar.len(), 4 + changes.changes()[0].cigar().len() + 4);
    assert_eq!(&cigar[..4], b"====");
    assert_eq!(&cigar[cigar.len() - 4..], b"====");
    assert_eq!(edit, changes.changes()[0].edit());
    assert_eq!(edit, 4);
}

#[test]
fn merge_lowers_end_when_other_ends_first() {
    let raw = b"AAAAAAAAAAAAAAAAAAAA";
    // Ends at 8 in the edited sequence (begin 2 and six bytes), 6 in the original.
    let mut first = Change::from_seq(2, 6, b"CCCCCC".to_vec(), raw);
    // Starts at 5, within the first's edited span; overlap 3, raw span 2.
    let second = Change::from_seq(5, 7, b"G".to_vec(), raw);
    assert!(first.overlap(&second));
    first.merge(&second, raw);
    assert_eq!(first.end_raw(), 5);
    assert_eq!(first.seq(), &b"CCCCCC".to_vec());
    assert_eq!(first.cigar().iter().filter(|&&c| c != b'I').count(), 3);
}
