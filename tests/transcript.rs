use sumcheck_gkr::field::Fe;
use sumcheck_gkr::transcript::{HashTrait, Keccak256Hasher, Transcript};

#[test]
fn test_hash() {
    let hasher = Keccak256Hasher::new();
    let mut transcript = Transcript::init(hasher);

    transcript.absorb(Fe::from_u64(7).to_bytes_be().as_slice());
    transcript.absorb("girl".as_bytes());

    let challenge = transcript.squeeze();
    let challenge1 = transcript.squeeze();

    assert_eq!(challenge, challenge1);
}

#[test]
fn empty_digest_is_keccak_of_nothing() {
    let hasher = Keccak256Hasher::new();
    let digest = hasher.generate_hash();
    let expected: Vec<u8> = vec![
        0xc5, 0xd2, 0x46, 0x01, 0x86, 0xf7, 0x23, 0x3c, 0x92, 0x7e, 0x7d, 0xb2, 0xdc, 0xc7, 0x03,
        0xc0, 0xe5, 0x00, 0xb6, 0x53, 0xca, 0x82, 0x27, 0x3b, 0x7b, 0xfa, 0xd8, 0x04, 0x5d, 0x85,
        0xa4, 0x70,
    ];
    assert_eq!(digest, expected);
}

#[test]
fn appends_are_concatenated() {
    let mut a = Keccak256Hasher::new();
    a.append(b"ab");
    a.append(b"c");
    let mut b = Keccak256Hasher::new();
    b.append(b"abc");
    assert_eq!(a.generate_hash(), b.generate_hash());
    let mut c = Keccak256Hasher::new();
    c.append(b"abd");
    assert_ne!(a.generate_hash(), c.generate_hash());
}

#[test]
fn identical_absorbs_give_identical_challenges() {
    let chunks: Vec<Vec<u8>> = vec![b"first".to_vec(), vec![1, 2, 3], vec![], b"last".to_vec()];
    let mut t1 = Transcript::init(Keccak256Hasher::new());
    let mut t2 = Transcript::init(Keccak256Hasher::new());
    for chunk in &chunks {
        t1.absorb(chunk);
        t2.absorb(chunk);
        assert_eq!(t1.squeeze(), t2.squeeze());
    }
}

#[test]
fn a_changed_byte_changes_the_challenge() {
    let mut t1 = Transcript::init(Keccak256Hasher::new());
    let mut t2 = Transcript::init(Keccak256Hasher::new());
    t1.absorb(&[1, 2, 3]);
    t2.absorb(&[1, 2, 4]);
    assert_ne!(t1.squeeze(), t2.squeeze());
    let before = t1.squeeze();
    t1.absorb(&[0]);
    assert_ne!(t1.squeeze(), before);
}

#[test]
fn challenge_is_the_digest_reduced() {
    let mut transcript = Transcript::init(Keccak256Hasher::new());
    transcript.absorb(b"girl");
    let mut hasher = Keccak256Hasher::new();
    hasher.append(b"girl");
    let digest = hasher.generate_hash();
    assert_eq!(transcript.squeeze(), Fe::from_be_bytes_mod_order(&digest));
}
