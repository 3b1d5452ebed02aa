use merkle_proof::digest::DIGEST_LEN;
use merkle_proof::merkle::{
    decode_digest, decode_path, fold_steps, join_for_step, matches_root, verify_proof,
    verify_steps, FormatError, ProofItem, ProofStep, Side,
};
use merkle_proof::session::RunState;
use sha2::Digest;

fn h(data: &[u8]) -> Vec<u8> {
    sha2::Sha256::digest(data).to_vec()
}

fn hx(data: &[u8]) -> String {
    hex::encode(data)
}

fn cat(a: &[u8], b: &[u8]) -> Vec<u8> {
    [a, b].concat()
}

fn flip_last_hex_char(s: &str) -> String {
    let mut chars: Vec<char> = s.chars().collect();
    let last = chars.len() - 1;
    chars[last] = if chars[last] == '0' { '1' } else { '0' };
    chars.into_iter().collect()
}

#[test]
fn empty_path_holds_when_target_is_root() {
    let t = h(b"leaf");
    assert_eq!(verify_proof(&hx(&t), vec![], &hx(&t)), Ok(true));
    assert!(verify_steps(&t, &vec![], &t));
}

#[test]
fn empty_path_fails_when_target_is_not_root() {
    let t = h(b"leaf");
    let r = h(b"other");
    assert_eq!(verify_proof(&hx(&r), vec![], &hx(&t)), Ok(false));
    assert!(!verify_steps(&r, &vec![], &t));
}

#[test]
fn single_step_right() {
    let t = h(b"a");
    let s = h(b"b");
    let root = h(&cat(&t, &s));
    let items = vec![ProofItem::new(hx(&s), true)];
    assert_eq!(verify_proof(&hx(&root), items, &hx(&t)), Ok(true));
}

#[test]
fn single_step_left() {
    let t = h(b"a");
    let s = h(b"b");
    let root = h(&cat(&s, &t));
    let items = vec![ProofItem::new(hx(&s), false)];
    assert_eq!(verify_proof(&hx(&root), items, &hx(&t)), Ok(true));
}

#[test]
fn swapping_side_breaks_proof() {
    let t = h(b"a");
    let s = h(b"b");
    let root = h(&cat(&t, &s));
    let right = vec![ProofItem::new(hx(&s), true)];
    let left = vec![ProofItem::new(hx(&s), false)];
    assert_eq!(verify_proof(&hx(&root), right, &hx(&t)), Ok(true));
    assert_eq!(verify_proof(&hx(&root), left, &hx(&t)), Ok(false));
}

fn two_level() -> (Vec<u8>, Vec<Vec<u8>>, Vec<u8>) {
    let t = h(b"leaf");
    let s0 = h(b"leaf2");
    let s1 = h(b"node");
    let mid = h(&cat(&s0, &t));
    let root = h(&cat(&mid, &s1));
    (root, vec![s0, s1], t)
}

fn items_of(sibs: &[Vec<u8>]) -> Vec<ProofItem> {
    vec![ProofItem::new(hx(&sibs[0]), false), ProofItem::new(hx(&sibs[1]), true)]
}

#[test]
fn two_level_proof_holds() {
    let (root, sibs, t) = two_level();
    assert_eq!(verify_proof(&hx(&root), items_of(&sibs), &hx(&t)), Ok(true));
}

#[test]
fn flipped_bit_in_root_breaks_proof() {
    let (mut root, sibs, t) = two_level();
    root[5] ^= 0x10;
    assert_eq!(verify_proof(&hx(&root), items_of(&sibs), &hx(&t)), Ok(false));
}

#[test]
fn flipped_bit_in_target_breaks_proof() {
    let (root, sibs, mut t) = two_level();
    t[0] ^= 0x01;
    assert_eq!(verify_proof(&hx(&root), items_of(&sibs), &hx(&t)), Ok(false));
}

#[test]
fn flipped_bit_in_sibling_breaks_proof() {
    for k in 0..2 {
        let (root, mut sibs, t) = two_level();
        sibs[k][31] ^= 0x80;
        assert_eq!(verify_proof(&hx(&root), items_of(&sibs), &hx(&t)), Ok(false));
    }
}

#[test]
fn verification_is_deterministic() {
    let (root, sibs, t) = two_level();
    let first = verify_proof(&hx(&root), items_of(&sibs), &hx(&t));
    let second = verify_proof(&hx(&root), items_of(&sibs), &hx(&t));
    assert_eq!(first, second);
    let steps = decode_path(&items_of(&sibs)).unwrap();
    assert_eq!(fold_steps(&t, &steps), fold_steps(&t, &steps));
}

#[test]
fn short_sibling_is_rejected() {
    let t = h(b"a");
    let s = h(b"b");
    let root = h(&cat(&t, &s));
    let items = vec![ProofItem::new(hx(&s[..31]), true)];
    assert_eq!(verify_proof(&hx(&root), items, &hx(&t)), Err(FormatError::WrongLength));
}

#[test]
fn long_sibling_is_rejected() {
    let t = h(b"a");
    let mut s = h(b"b");
    s.push(0);
    let root = h(&cat(&t, &s));
    let items = vec![ProofItem::new(hx(&s), true)];
    assert_eq!(verify_proof(&hx(&root), items, &hx(&t)), Err(FormatError::WrongLength));
}

#[test]
fn odd_length_hex_is_rejected() {
    let t = h(b"a");
    let bad = format!("{}0", hx(&t));
    assert_eq!(verify_proof(&hx(&t), vec![], &bad), Err(FormatError::InvalidHex));
}

#[test]
fn non_hex_character_is_rejected() {
    let t = h(b"a");
    let mut bad = hx(&t);
    bad.replace_range(0..1, "g");
    let items = vec![ProofItem::new(bad, true)];
    assert_eq!(verify_proof(&hx(&t), items, &hx(&t)), Err(FormatError::InvalidHex));
}

#[test]
fn wrong_length_root_is_rejected() {
    let t = h(b"a");
    assert_eq!(verify_proof("abcd", vec![], &hx(&t)), Err(FormatError::WrongLength));
    assert_eq!(verify_proof("", vec![], &hx(&t)), Err(FormatError::WrongLength));
}

#[test]
fn target_is_decoded_before_path_and_root() {
    let items = vec![ProofItem::new("abcd".to_string(), true)];
    assert_eq!(verify_proof("zz", items, "xyz"), Err(FormatError::InvalidHex));
    let t = h(b"a");
    let items = vec![ProofItem::new("abcd".to_string(), true)];
    assert_eq!(verify_proof("zz", items, &hx(&t)), Err(FormatError::WrongLength));
}

#[test]
fn first_bad_sibling_gives_the_error() {
    let s = h(b"b");
    let items = vec![
        ProofItem::new(hx(&s), true),
        ProofItem::new("0g".to_string(), true),
        ProofItem::new("00".to_string(), false),
    ];
    assert_eq!(decode_path(&items).unwrap_err(), FormatError::InvalidHex);
    let items = vec![
        ProofItem::new(hx(&s), true),
        ProofItem::new("00".to_string(), false),
        ProofItem::new("0g".to_string(), true),
    ];
    assert_eq!(decode_path(&items).unwrap_err(), FormatError::WrongLength);
}

#[test]
fn hex_decoding_ignores_case() {
    let (root, sibs, t) = two_level();
    let items = vec![
        ProofItem::new(hx(&sibs[0]).to_uppercase(), false),
        ProofItem::new(hx(&sibs[1]), true),
    ];
    assert_eq!(verify_proof(&hx(&root).to_uppercase(), items, &hx(&t)), Ok(true));
}

#[test]
fn decode_digest_gives_the_bytes() {
    let text = "00ff10Ab".repeat(8);
    let bytes = decode_digest(&text).unwrap();
    assert_eq!(bytes.len(), DIGEST_LEN);
    assert_eq!(&bytes[..4], &[0x00, 0xff, 0x10, 0xab]);
    assert_eq!(bytes, [0x00u8, 0xff, 0x10, 0xab].repeat(8));
}

#[test]
fn decode_path_keeps_order_and_sides() {
    let (_, sibs, _) = two_level();
    let steps = decode_path(&items_of(&sibs)).unwrap();
    assert_eq!(steps.len(), 2);
    assert_eq!(steps[0].sibling_hash, sibs[0]);
    assert_eq!(steps[0].side, Side::Left);
    assert_eq!(steps[1].sibling_hash, sibs[1]);
    assert_eq!(steps[1].side, Side::Right);
}

#[test]
fn join_for_step_orders_bytes() {
    let right = ProofStep { sibling_hash: vec![3, 4], side: Side::Right };
    let left = ProofStep { sibling_hash: vec![3, 4], side: Side::Left };
    assert_eq!(join_for_step(&[1, 2], &right), vec![1, 2, 3, 4]);
    assert_eq!(join_for_step(&[1, 2], &left), vec![3, 4, 1, 2]);
}

#[test]
fn fold_steps_hashes_each_step() {
    let t = vec![7u8; 32];
    let s = vec![9u8; 32];
    let steps = vec![ProofStep { sibling_hash: s.clone(), side: Side::Right }];
    let reached = fold_steps(&t, &steps);
    assert_eq!(reached, h(&cat(&t, &s)));
    assert_ne!(reached, t);
    assert_eq!(fold_steps(&t, &vec![]), t);
}

#[test]
fn matches_root_compares_bytes() {
    assert!(matches_root(&[1, 2, 3], &[1, 2, 3]));
    assert!(!matches_root(&[1, 2, 3], &[1, 2, 4]));
    assert!(!matches_root(&[1, 2], &[1, 2, 3]));
    assert!(matches_root(&[], &[]));
}

#[test]
fn end_to_end_leaf_scenario() {
    let target = h(b"leaf");
    let sibling = h(b"leaf2");
    let root = h(&cat(&sibling, &target));
    let items = vec![ProofItem::new(hx(&sibling), false)];
    assert_eq!(verify_proof(&hx(&root), items, &hx(&target)), Ok(true));
    let changed = flip_last_hex_char(&hx(&root));
    let items = vec![ProofItem::new(hx(&sibling), false)];
    assert_eq!(verify_proof(&changed, items, &hx(&target)), Ok(false));
}

#[test]
fn bounded_run_stops_at_its_limit() {
    let mut run = RunState::new(Some(2));
    assert_eq!(run.start_cycle(), Some(1));
    assert_eq!(run.start_cycle(), Some(2));
    assert_eq!(run.start_cycle(), None);
    assert_eq!(run.started, 2);
}

#[test]
fn unbounded_run_keeps_counting() {
    let mut run = RunState::new(None);
    for n in 1..=100u64 {
        assert_eq!(run.start_cycle(), Some(n));
    }
    let mut full = RunState { started: u64::MAX, limit: None };
    assert_eq!(full.start_cycle(), None);
    let mut none = RunState::new(Some(0));
    assert_eq!(none.start_cycle(), None);
}
