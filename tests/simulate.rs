use rand::SeedableRng;
use rustyread::fragments::{add_junk, add_random};

#[test]
fn junk_seq() {
    let mut rng = rand::rngs::StdRng::seed_from_u64(42);
    let mut seq = Vec::new();

    add_junk(&mut seq, 100, &mut rng);
    assert_eq!(b"AGATAGATAGATAGATAGATAGATAGATAGATAGATAGATAGATAGATAGATAGATAGATAGATAGATAGATAGATAGATAGATAGATAGATAGATAGAT".to_vec(), seq);
}

#[test]
fn random_seq() {
    let mut rng = rand::rngs::StdRng::seed_from_u64(42);
    let mut seq = Vec::new();

    add_random(&mut seq, 100, &mut rng);

    assert_eq!(b"TTAGATTATAGTACGGTATAGTGGTTACTATGTAGCCTAAGTGGCGCCCGTTGTAGAGGAATCCACTTATATAACACAGGTATAATCCGGACGGCATGCG".to_vec(), seq);
}
