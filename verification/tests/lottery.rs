use verifiable_lottery::error::LotteryError;
use verifiable_lottery::hash;
use verifiable_lottery::outcome::Outcome;
use verifiable_lottery::protocol::run_lottery;
use verifiable_lottery::ranking::sort_by_digest;

const ALICE_ZERO: &str = "7450630a3706c6432eeddf324810eaa3cd19d450082100eca60dcfcfd451f2dcec76d6a82ce2c9783a0d5c9b2b8c760e5feda01df1055496e7b6c35f01b715f5";
const BOB_ZERO: &str = "2592070bfa92bf775e6a4e9b5825f6098775519e50fb619686ba1ccc13b1ef289fce1340c03e4e04e1b4364194a0c1a3a8f7f92d84b8d65d72c26ef0d7821647";
const BLANK_ZERO: &str = "8715b7b58c747a49e371ba0b02b7de8f35da26ff2c8a60b80715d0272021266283af3eedb537683dd74cb1708601a80c9970376f1226d16afc242765eccd592a";
const ACCENT_ZERO: &str = "555e0490553c3128b6eca3f70e20d1e130af492bed007bf7a8efef8d13a2adcfcb73cbec3981fe226665cb37cc46dad9ef225da27b8a4f895f992ed7f3ea30ab";

fn strings(entries: &[&str]) -> Vec<String> {
    entries.iter().map(|entry| entry.to_string()).collect()
}

fn ranking_of(outcome: &Outcome) -> Vec<(String, String)> {
    outcome.ordered_entries.iter().map(|(digest, entry)| (digest.to_string(), entry.clone())).collect()
}

fn entries_of(outcome: &Outcome) -> Vec<String> {
    outcome.ordered_entries.iter().map(|(_, entry)| entry.clone()).collect()
}

fn pair(first: u8, entry: &str) -> (hash::Hash, String) {
    let mut bytes = [0u8; 64];
    bytes[0] = first;
    (hash::Hash::from_bytes(bytes), entry.to_string())
}

#[test]
fn lottery_with_zero_secret_over_alice_and_bob() {
    let outcome = Outcome::generate(strings(&["alice", "bob"]), vec![0u8; 64]);
    assert_eq!(
        ranking_of(&outcome),
        vec![(BOB_ZERO.to_string(), "bob".to_string()), (ALICE_ZERO.to_string(), "alice".to_string())]
    );
    assert_eq!(outcome.secret, vec![0u8; 64]);
}

#[test]
fn lottery_digest_is_that_of_entry_followed_by_secret() {
    let secret = vec![0u8; 64];
    let outcome = Outcome::generate(strings(&["alice", "bob"]), secret.clone());
    let mut alice = b"alice".to_vec();
    alice.extend_from_slice(&secret);
    let mut bob = b"bob".to_vec();
    bob.extend_from_slice(&secret);
    assert_eq!(outcome.ordered_entries[0].0, hash::Hash::of(&[&bob]));
    assert_eq!(outcome.ordered_entries[1].0, hash::Hash::of(&[&alice]));
    assert_eq!(outcome.ordered_entries[1].0, hash::Hash::of(&[b"alice", &secret]));
}

#[test]
fn lottery_does_not_depend_on_the_order_of_the_entries() {
    let forward = Outcome::generate(strings(&["alice", "bob"]), vec![0u8; 64]);
    let backward = Outcome::generate(strings(&["bob", "alice"]), vec![0u8; 64]);
    assert_eq!(forward, backward);
    let names = ["alice", "bob", "carol", "dave", "erin", ""];
    let shuffled = ["erin", "", "dave", "alice", "carol", "bob"];
    let first = Outcome::generate(strings(&names), vec![7, 7, 7]);
    let second = Outcome::generate(strings(&shuffled), vec![7, 7, 7]);
    assert_eq!(first, second);
    assert_eq!(entries_of(&first), strings(&["carol", "", "alice", "erin", "bob", "dave"]));
}

#[test]
fn lottery_is_repeatable() {
    let names = ["alice", "bob", "carol", "dave", "erin"];
    let first = Outcome::generate(strings(&names), vec![1, 2, 3]);
    let second = Outcome::generate(strings(&names), vec![1, 2, 3]);
    assert_eq!(first, second);
    assert_eq!(ranking_of(&first), ranking_of(&second));
}

#[test]
fn lottery_order_depends_on_the_secret() {
    let zero = Outcome::generate(strings(&["alice", "bob"]), vec![0u8; 64]);
    let mut other_secret = vec![0u8; 64];
    other_secret[0] = 1;
    let other = Outcome::generate(strings(&["alice", "bob"]), other_secret);
    assert_eq!(entries_of(&zero), strings(&["bob", "alice"]));
    assert_eq!(entries_of(&other), strings(&["bob", "alice"]));
    assert_ne!(zero.ordered_entries[0].0, other.ordered_entries[0].0);
    assert_eq!(
        other.ordered_entries[0].0.to_string(),
        "7887b0cddf76e6c1b3212b34f1c1d5faaa0fa7e226e52ac46c9409d0c4044962654f459c208bd9fd20b2da69589816a27e9dd94d09041f36fd96725c7d408659"
    );
    assert_eq!(
        other.ordered_entries[1].0.to_string(),
        "cffcf33306952c573cf7a007a5b78499449b711724f73f50ac9a062621f570bbb0b10d285ee6715a194191007fb910c2c2eb6d349f03927ff83cc6eee21a5db3"
    );
    let short = Outcome::generate(strings(&["alice", "bob"]), vec![7, 7, 7]);
    assert_eq!(entries_of(&short), strings(&["alice", "bob"]));
}

#[test]
fn lottery_with_zero_entries() {
    let outcome = Outcome::generate(Vec::new(), vec![0u8; 64]);
    assert!(outcome.ordered_entries.is_empty());
    assert_eq!(outcome.secret, vec![0u8; 64]);
    assert_eq!(outcome.verify(), Ok(()));
}

#[test]
fn lottery_with_one_entry() {
    let outcome = Outcome::generate(strings(&["alice"]), vec![0u8; 64]);
    assert_eq!(ranking_of(&outcome), vec![(ALICE_ZERO.to_string(), "alice".to_string())]);
}

#[test]
fn lottery_keeps_duplicates() {
    let outcome = Outcome::generate(strings(&["alice", "bob", "alice", "alice"]), vec![0u8; 64]);
    assert_eq!(entries_of(&outcome), strings(&["bob", "alice", "alice", "alice"]));
    assert_eq!(outcome.ordered_entries[1].0, outcome.ordered_entries[3].0);
    assert_eq!(outcome.ordered_entries.len(), 4);
}

#[test]
fn lottery_takes_blank_entries() {
    let outcome = Outcome::generate(strings(&["", "bob", ""]), vec![0u8; 64]);
    assert_eq!(
        ranking_of(&outcome),
        vec![
            (BOB_ZERO.to_string(), "bob".to_string()),
            (BLANK_ZERO.to_string(), "".to_string()),
            (BLANK_ZERO.to_string(), "".to_string()),
        ]
    );
}

#[test]
fn lottery_hashes_the_utf8_bytes_of_an_entry() {
    let outcome = Outcome::generate(strings(&["é"]), vec![0u8; 64]);
    assert_eq!(ranking_of(&outcome), vec![(ACCENT_ZERO.to_string(), "é".to_string())]);
}

#[test]
fn lottery_with_an_empty_secret() {
    let outcome = Outcome::generate(strings(&["hello world"]), Vec::new());
    assert_eq!(outcome.ordered_entries[0].0, hash::Hash::of(&[b"hello world"]));
    assert_eq!(outcome.verify(), Ok(()));
}

#[test]
fn lottery_ranking_is_ascending() {
    let names: Vec<String> = (0..200).map(|i| format!("entry-{}", i)).collect();
    let outcome = Outcome::generate(names.clone(), vec![9u8; 64]);
    assert_eq!(outcome.ordered_entries.len(), 200);
    for window in outcome.ordered_entries.windows(2) {
        assert!(window[0].0.le(&window[1].0));
        assert!(window[0].0.to_string() <= window[1].0.to_string());
    }
    let mut ranked_names = entries_of(&outcome);
    ranked_names.sort();
    let mut sorted_names = names;
    sorted_names.sort();
    assert_eq!(ranked_names, sorted_names);
    for (digest, entry) in outcome.ordered_entries.iter() {
        assert_eq!(*digest, hash::Hash::of(&[entry.as_bytes(), &[9u8; 64]]));
    }
}

#[test]
fn lottery_agrees_with_a_stable_sort_by_digest() {
    let names: Vec<String> = (0..100).map(|i| format!("n{}", i % 37)).collect();
    let secret = vec![3u8; 5];
    let outcome = Outcome::generate(names.clone(), secret.clone());
    let mut expected: Vec<(hash::Hash, String)> =
        names.iter().map(|name| (hash::Hash::of(&[name.as_bytes(), &secret]), name.clone())).collect();
    expected.sort_by(|a, b| a.0.as_bytes().cmp(b.0.as_bytes()));
    assert_eq!(outcome.ordered_entries, expected);
}

#[test]
fn sort_by_digest_keeps_input_order_among_equal_digests() {
    let mut pairs = vec![
        pair(2, "first of two"),
        pair(1, "first of one"),
        pair(2, "second of two"),
        pair(0, "zero"),
        pair(1, "second of one"),
        pair(2, "third of two"),
        pair(1, "third of one"),
    ];
    sort_by_digest(&mut pairs);
    let entries: Vec<&str> = pairs.iter().map(|(_, entry)| entry.as_str()).collect();
    assert_eq!(
        entries,
        vec![
            "zero",
            "first of one",
            "second of one",
            "third of one",
            "first of two",
            "second of two",
            "third of two",
        ]
    );
    let firsts: Vec<u8> = pairs.iter().map(|(digest, _)| digest.as_bytes()[0]).collect();
    assert_eq!(firsts, vec![0, 1, 1, 1, 2, 2, 2]);
}

#[test]
fn sort_by_digest_does_not_order_by_entry() {
    let mut pairs = vec![pair(5, "zebra"), pair(5, "apple"), pair(5, "mango")];
    sort_by_digest(&mut pairs);
    let entries: Vec<&str> = pairs.iter().map(|(_, entry)| entry.as_str()).collect();
    assert_eq!(entries, vec!["zebra", "apple", "mango"]);
}

#[test]
fn sort_by_digest_on_few_pairs() {
    let mut none: Vec<(hash::Hash, String)> = Vec::new();
    sort_by_digest(&mut none);
    assert!(none.is_empty());
    let mut one = vec![pair(9, "only")];
    sort_by_digest(&mut one);
    assert_eq!(one, vec![pair(9, "only")]);
    let mut two = vec![pair(9, "late"), pair(3, "early")];
    sort_by_digest(&mut two);
    assert_eq!(two, vec![pair(3, "early"), pair(9, "late")]);
}

#[test]
fn lottery_over_many_entries() {
    let names: Vec<String> = (0..20000).map(|i| format!("entry-{}", i % 15000)).collect();
    let secret = vec![5u8; 64];
    let outcome = Outcome::generate(names.clone(), secret.clone());
    let mut expected: Vec<(hash::Hash, String)> =
        names.iter().map(|name| (hash::Hash::of(&[name.as_bytes(), &secret]), name.clone())).collect();
    expected.sort_by(|a, b| a.0.cmp(&b.0));
    assert_eq!(outcome.ordered_entries, expected);
    assert_eq!(outcome.verify(), Ok(()));
}

#[test]
fn sort_by_digest_reverses_a_descending_list() {
    let mut pairs: Vec<(hash::Hash, String)> = (0..=255u8).rev().map(|i| pair(i, "x")).collect();
    sort_by_digest(&mut pairs);
    let firsts: Vec<u8> = pairs.iter().map(|(digest, _)| digest.as_bytes()[0]).collect();
    let ascending: Vec<u8> = (0..=255u8).collect();
    assert_eq!(firsts, ascending);
}

#[test]
fn run_lottery_reads_the_secret_from_hex() {
    let text = "0".repeat(128);
    let outcome = run_lottery(text.as_bytes(), strings(&["alice", "bob"])).unwrap();
    assert_eq!(outcome, Outcome::generate(strings(&["alice", "bob"]), vec![0u8; 64]));
    assert_eq!(outcome.secret, vec![0u8; 64]);
    let short = run_lottery(b"070707", strings(&["alice", "bob"])).unwrap();
    assert_eq!(short.secret, vec![7, 7, 7]);
    assert_eq!(entries_of(&short), strings(&["alice", "bob"]));
}

#[test]
fn run_lottery_rejects_a_malformed_secret() {
    assert_eq!(run_lottery(b"0", strings(&["alice"])).err(), Some(LotteryError::MalformedSecret));
    assert_eq!(run_lottery(b"zz", strings(&["alice"])).err(), Some(LotteryError::MalformedSecret));
    let with_newline = format!("{}\n", "0".repeat(128));
    assert_eq!(
        run_lottery(with_newline.as_bytes(), Vec::new()).err(),
        Some(LotteryError::MalformedSecret)
    );
}
