use cargo_crev::opts::{
    same_opt_text, CrateSelector, CrateSelectorNameRequired, Fetch, FetchUrl, Id, IdCommand,
    IdSwitch, ListReviews, ListTrustedIds, Trust, TrustParams, Verify,
};

fn text(s: &str) -> Option<String> {
    Some(String::from(s))
}

fn selector(name: Option<&str>, version: Option<&str>) -> CrateSelector {
    CrateSelector { name: name.map(String::from), version: version.map(String::from) }
}

#[test]
fn selector_from_name_required_keeps_both_fields() {
    let c = CrateSelectorNameRequired { name: String::from("foo"), version: text("1.0") };
    let s = CrateSelector::from(c);
    assert_eq!(s.name, text("foo"));
    assert_eq!(s.version, text("1.0"));
}

#[test]
fn selector_from_name_required_without_version() {
    let c = CrateSelectorNameRequired { name: String::from("foo"), version: None };
    let s = CrateSelector::from(c);
    assert_eq!(s, selector(Some("foo"), None));
}

#[test]
fn distance_params_from_trust_params_maps_each_cost() {
    let p = TrustParams { depth: 7, high_cost: 2, medium_cost: 3, low_cost: 11 };
    let d = crev_lib::TrustDistanceParams::from(p);
    assert_eq!(d.max_distance, 7);
    assert_eq!(d.high_trust_distance, 2);
    assert_eq!(d.medium_trust_distance, 3);
    assert_eq!(d.low_trust_distance, 11);
}

#[test]
fn trust_params_default_costs() {
    let p = TrustParams::default();
    assert_eq!(p.depth, 10);
    assert_eq!(p.high_cost, 0);
    assert_eq!(p.medium_cost, 1);
    assert_eq!(p.low_cost, 5);
}

#[test]
fn selector_without_name_matches_every_package() {
    let all = selector(None, None);
    assert!(all.matches(&selector(Some("foo"), Some("1.0"))));
    assert!(all.matches(&selector(Some("bar"), None)));
    assert!(all.matches(&selector(None, None)));
}

#[test]
fn selector_with_name_matches_every_version_of_it() {
    let foo = selector(Some("foo"), None);
    assert!(foo.matches(&selector(Some("foo"), Some("1.0"))));
    assert!(foo.matches(&selector(Some("foo"), Some("2.0"))));
    assert!(foo.matches(&selector(Some("foo"), None)));
    assert!(!foo.matches(&selector(Some("bar"), Some("1.0"))));
    assert!(!foo.matches(&selector(None, Some("1.0"))));
}

#[test]
fn selector_with_version_matches_that_version_only() {
    let foo1 = selector(Some("foo"), Some("1.0"));
    assert!(foo1.matches(&selector(Some("foo"), Some("1.0"))));
    assert!(!foo1.matches(&selector(Some("foo"), Some("1.1"))));
    assert!(!foo1.matches(&selector(Some("foo"), None)));
    assert!(!foo1.matches(&selector(Some("bar"), Some("1.0"))));
}

#[test]
fn selector_with_version_alone_matches_any_name() {
    let v1 = selector(None, Some("1.0"));
    assert!(v1.matches(&selector(Some("foo"), Some("1.0"))));
    assert!(v1.matches(&selector(Some("bar"), Some("1.0"))));
    assert!(!v1.matches(&selector(Some("foo"), Some("2.0"))));
}

#[test]
fn selector_same_as_compares_both_parts() {
    let a = selector(Some("foo"), Some("1.0"));
    assert!(a.same_as(&selector(Some("foo"), Some("1.0"))));
    assert!(!a.same_as(&selector(Some("foo"), None)));
    assert!(!a.same_as(&selector(None, Some("1.0"))));
    assert!(selector(None, None).same_as(&selector(None, None)));
}

#[test]
fn selector_clone_is_equal() {
    let a = selector(Some("foo"), Some("1.0"));
    assert_eq!(a.clone(), a);
    let b = selector(None, None);
    assert_eq!(b.clone(), b);
}

#[test]
fn optional_texts_compare_by_content() {
    assert!(same_opt_text(&text("a"), &text("a")));
    assert!(!same_opt_text(&text("a"), &text("b")));
    assert!(!same_opt_text(&text("a"), &None));
    assert!(!same_opt_text(&None, &text("a")));
    assert!(same_opt_text(&None, &None));
}

#[test]
fn option_values_hold_what_they_are_given() {
    let id = Id { id_command: IdCommand::Switch(IdSwitch { id: String::from("abc") }) };
    assert!(matches!(id.id_command, IdCommand::Switch(ref s) if s.id == "abc"));
    let verify = Verify { verbose: true, trust_params: TrustParams::default() };
    assert!(verify.verbose);
    assert_eq!(verify.trust_params.depth, 10);
    let trust = Trust { pub_ids: vec![String::from("x"), String::from("y")] };
    assert_eq!(trust.pub_ids.len(), 2);
    let fetch = Fetch::Url(FetchUrl { url: String::from("https://example.org/proofs") });
    assert!(matches!(fetch, Fetch::Url(ref u) if u.url == "https://example.org/proofs"));
    let trusted = Fetch::Trusted(TrustParams { depth: 3, high_cost: 0, medium_cost: 1, low_cost: 5 });
    assert!(matches!(trusted, Fetch::Trusted(ref p) if p.depth == 3));
    let list = ListTrustedIds { trust_params: TrustParams::default() };
    assert_eq!(list.trust_params.low_cost, 5);
    let reviews = ListReviews { crate_: selector(Some("foo"), None) };
    assert_eq!(reviews.crate_.name, text("foo"));
}
