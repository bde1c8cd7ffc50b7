use cargo_crev::model::{bytes_come_before, Identity, Level, Proof, ReviewContent, TrustLevel};
use cargo_crev::opts::CrateSelector;
use cargo_crev::store::{ProofStore, RejectReason};

fn who(id: &str) -> Identity {
    Identity::new(String::from(id))
}

fn package(name: &str, version: &str) -> CrateSelector {
    CrateSelector { name: Some(String::from(name)), version: Some(String::from(version)) }
}

fn trust(from: &str, to: &str, level: TrustLevel, date: u64) -> Proof {
    Proof::Trust { from: who(from), to: who(to), level, date }
}

fn distrust(from: &str, to: &str, date: u64) -> Proof {
    Proof::Distrust { from: who(from), to: who(to), date }
}

fn review(from: &str, name: &str, version: &str, date: u64) -> Proof {
    Proof::Review {
        from: who(from),
        crate_: package(name, version),
        outcome: ReviewContent { thoroughness: Level::Medium, understanding: Level::High },
        date,
    }
}

fn flag(from: &str, name: &str, version: &str, date: u64) -> Proof {
    Proof::Flag { from: who(from), crate_: package(name, version), date }
}

fn contents(store: &ProofStore) -> Vec<Proof> {
    let mut all = Vec::new();
    for i in 0..store.len() {
        all.push(store.get(i).clone());
    }
    all
}

fn archive(store: &ProofStore) -> Vec<Proof> {
    let mut all = Vec::new();
    for i in 0..store.archive_len() {
        all.push(store.archived(i).clone());
    }
    all
}

#[test]
fn new_store_is_empty() {
    let store = ProofStore::new();
    assert_eq!(store.len(), 0);
    assert_eq!(store.archive_len(), 0);
}

#[test]
fn add_accepts_a_signed_proof_of_the_past() {
    let mut store = ProofStore::new();
    assert_eq!(store.add(trust("root", "a", TrustLevel::High, 100), true, 100), Ok(()));
    assert_eq!(contents(&store), vec![trust("root", "a", TrustLevel::High, 100)]);
    assert_eq!(store.archive_len(), 0);
}

#[test]
fn add_rejects_a_bad_signature() {
    let mut store = ProofStore::new();
    let done = store.add(trust("root", "a", TrustLevel::High, 1), false, 100);
    assert_eq!(done, Err(RejectReason::BadSignature));
    assert_eq!(store.len(), 0);
}

#[test]
fn add_rejects_a_date_in_the_future() {
    let mut store = ProofStore::new();
    let done = store.add(trust("root", "a", TrustLevel::High, 101), true, 100);
    assert_eq!(done, Err(RejectReason::FutureTimestamp));
    assert_eq!(store.len(), 0);
}

#[test]
fn add_names_the_signature_before_the_date() {
    let mut store = ProofStore::new();
    let done = store.add(trust("root", "a", TrustLevel::High, 101), false, 100);
    assert_eq!(done, Err(RejectReason::BadSignature));
}

#[test]
fn a_newer_proof_replaces_the_older_one_in_place() {
    let mut store = ProofStore::new();
    assert_eq!(store.add(trust("root", "a", TrustLevel::Low, 10), true, 100), Ok(()));
    assert_eq!(store.add(trust("root", "b", TrustLevel::Low, 10), true, 100), Ok(()));
    assert_eq!(store.add(trust("root", "a", TrustLevel::High, 20), true, 100), Ok(()));
    assert_eq!(
        contents(&store),
        vec![trust("root", "a", TrustLevel::High, 20), trust("root", "b", TrustLevel::Low, 10)]
    );
    assert_eq!(archive(&store), vec![trust("root", "a", TrustLevel::Low, 10)]);
}

#[test]
fn an_older_proof_changes_nothing() {
    let mut store = ProofStore::new();
    assert_eq!(store.add(trust("root", "a", TrustLevel::High, 20), true, 100), Ok(()));
    assert_eq!(store.add(trust("root", "a", TrustLevel::Low, 10), true, 100), Ok(()));
    assert_eq!(contents(&store), vec![trust("root", "a", TrustLevel::High, 20)]);
    assert_eq!(store.archive_len(), 0);
}

#[test]
fn a_proof_of_the_same_date_changes_nothing() {
    let mut store = ProofStore::new();
    assert_eq!(store.add(trust("root", "a", TrustLevel::High, 20), true, 100), Ok(()));
    assert_eq!(store.add(trust("root", "a", TrustLevel::Low, 20), true, 100), Ok(()));
    assert_eq!(contents(&store), vec![trust("root", "a", TrustLevel::High, 20)]);
}

#[test]
fn the_same_proof_twice_leaves_the_store_unchanged() {
    let mut store = ProofStore::new();
    assert_eq!(store.add(trust("root", "a", TrustLevel::Low, 10), true, 100), Ok(()));
    assert_eq!(store.add(review("a", "foo", "1.0", 11), true, 100), Ok(()));
    let once = contents(&store);
    assert_eq!(store.add(review("a", "foo", "1.0", 11), true, 100), Ok(()));
    assert_eq!(store.add(trust("root", "a", TrustLevel::Low, 10), true, 100), Ok(()));
    assert_eq!(contents(&store), once);
    assert_eq!(store.archive_len(), 0);
}

#[test]
fn a_distrust_replaces_an_older_trust_of_the_same_pair() {
    let mut store = ProofStore::new();
    assert_eq!(store.add(trust("a", "b", TrustLevel::High, 10), true, 100), Ok(()));
    assert_eq!(store.add(distrust("a", "b", 11), true, 100), Ok(()));
    assert_eq!(contents(&store), vec![distrust("a", "b", 11)]);
    assert_eq!(archive(&store), vec![trust("a", "b", TrustLevel::High, 10)]);
}

#[test]
fn a_flag_replaces_an_older_review_of_the_same_package() {
    let mut store = ProofStore::new();
    assert_eq!(store.add(review("a", "foo", "1.0", 10), true, 100), Ok(()));
    assert_eq!(store.add(flag("a", "foo", "1.0", 11), true, 100), Ok(()));
    assert_eq!(contents(&store), vec![flag("a", "foo", "1.0", 11)]);
}

#[test]
fn proofs_of_other_issuers_and_subjects_stay_side_by_side() {
    let mut store = ProofStore::new();
    assert_eq!(store.add(trust("a", "b", TrustLevel::High, 10), true, 100), Ok(()));
    assert_eq!(store.add(trust("b", "a", TrustLevel::High, 11), true, 100), Ok(()));
    assert_eq!(store.add(trust("a", "c", TrustLevel::High, 12), true, 100), Ok(()));
    assert_eq!(store.add(review("a", "b", "1.0", 13), true, 100), Ok(()));
    assert_eq!(store.add(review("a", "b", "1.1", 14), true, 100), Ok(()));
    assert_eq!(store.len(), 5);
}

#[test]
fn proofs_from_gives_the_proofs_of_one_issuer_in_order() {
    let mut store = ProofStore::new();
    assert_eq!(store.add(trust("a", "b", TrustLevel::High, 10), true, 100), Ok(()));
    assert_eq!(store.add(trust("b", "c", TrustLevel::Low, 11), true, 100), Ok(()));
    assert_eq!(store.add(review("a", "foo", "1.0", 12), true, 100), Ok(()));
    assert_eq!(
        store.proofs_from(&who("a")),
        vec![trust("a", "b", TrustLevel::High, 10), review("a", "foo", "1.0", 12)]
    );
    assert_eq!(store.proofs_from(&who("b")), vec![trust("b", "c", TrustLevel::Low, 11)]);
    assert_eq!(store.proofs_from(&who("c")), Vec::<Proof>::new());
}

#[test]
fn proofs_from_goes_by_the_id_not_by_the_name() {
    let mut store = ProofStore::new();
    assert_eq!(store.add(trust("a", "b", TrustLevel::High, 10), true, 100), Ok(()));
    let named = Identity { id: String::from("a"), name: Some(String::from("Alice")) };
    assert_eq!(store.proofs_from(&named).len(), 1);
}

#[test]
fn proofs_about_filters_by_name_and_version() {
    let mut store = ProofStore::new();
    assert_eq!(store.add(trust("a", "b", TrustLevel::High, 10), true, 100), Ok(()));
    assert_eq!(store.add(review("a", "foo", "1.0", 11), true, 100), Ok(()));
    assert_eq!(store.add(flag("b", "foo", "2.0", 12), true, 100), Ok(()));
    assert_eq!(store.add(review("b", "bar", "1.0", 13), true, 100), Ok(()));
    assert_eq!(store.proofs_about(&package("foo", "1.0")), vec![review("a", "foo", "1.0", 11)]);
    let any_foo = CrateSelector { name: Some(String::from("foo")), version: None };
    assert_eq!(
        store.proofs_about(&any_foo),
        vec![review("a", "foo", "1.0", 11), flag("b", "foo", "2.0", 12)]
    );
    let all = CrateSelector { name: None, version: None };
    assert_eq!(store.proofs_about(&all).len(), 3);
    assert_eq!(store.proofs_about(&package("baz", "1.0")), Vec::<Proof>::new());
}

#[test]
fn proof_keys_compare_issuer_and_subject() {
    assert!(trust("a", "b", TrustLevel::High, 1).same_key(&distrust("a", "b", 2)));
    assert!(!trust("a", "b", TrustLevel::High, 1).same_key(&trust("a", "c", TrustLevel::High, 1)));
    assert!(!trust("a", "b", TrustLevel::High, 1).same_key(&trust("c", "b", TrustLevel::High, 1)));
    assert!(review("a", "foo", "1.0", 1).same_key(&flag("a", "foo", "1.0", 9)));
    assert!(!review("a", "foo", "1.0", 1).same_key(&review("a", "foo", "1.1", 1)));
    assert!(!review("a", "b", "1.0", 1).same_key(&trust("a", "b", TrustLevel::Low, 1)));
}

#[test]
fn proof_accessors_give_issuer_and_date() {
    let p = review("a", "foo", "1.0", 42);
    assert_eq!(p.issuer(), &who("a"));
    assert_eq!(p.date(), 42);
    assert_eq!(distrust("x", "y", 7).issuer(), &who("x"));
    assert_eq!(flag("z", "foo", "1.0", 8).date(), 8);
    assert_eq!(trust("t", "u", TrustLevel::Medium, 9).date(), 9);
}

#[test]
fn proof_clone_is_equal() {
    for p in [
        trust("a", "b", TrustLevel::Medium, 1),
        distrust("a", "b", 2),
        review("a", "foo", "1.0", 3),
        flag("a", "foo", "1.0", 4),
    ] {
        assert_eq!(p.clone(), p);
    }
    let named = Identity { id: String::from("a"), name: Some(String::from("Alice")) };
    assert_eq!(named.clone(), named);
    assert!(named.same_as(&who("a")));
    assert!(!named.same_as(&who("b")));
}

#[test]
fn bytes_are_ordered_by_their_first_difference() {
    assert!(bytes_come_before(b"a", b"b"));
    assert!(!bytes_come_before(b"b", b"a"));
    assert!(bytes_come_before(b"ab", b"b"));
    assert!(bytes_come_before(b"a", b"ab"));
    assert!(!bytes_come_before(b"ab", b"a"));
    assert!(bytes_come_before(b"", b"a"));
    assert!(!bytes_come_before(b"a", b""));
    assert!(!bytes_come_before(b"", b""));
    assert!(!bytes_come_before(b"abc", b"abc"));
    assert!(bytes_come_before(b"abc", b"abd"));
    assert!(bytes_come_before(&[1, 2, 255], &[1, 3]));
}

#[test]
fn identities_are_ordered_by_their_ids() {
    assert!(who("alice").comes_before(&who("bob")));
    assert!(!who("bob").comes_before(&who("alice")));
    assert!(!who("alice").comes_before(&who("alice")));
    assert!(who("alice").comes_before(&who("alicia")));
    assert!(who("Zed").comes_before(&who("alice")));
    assert!(who("z").comes_before(&who("\u{e9}")));
    let named = Identity { id: String::from("alice"), name: Some(String::from("zzz")) };
    assert!(named.comes_before(&who("bob")));
}
