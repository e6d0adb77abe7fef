use anneal_params::{build_domain, ParamError, ParameterRegistry, VisitedStateIndex};

fn sorted(mut v: Vec<u32>) -> Vec<u32> {
    v.sort();
    v
}

#[test]
fn build_domain_includes_upper_on_inexact_step() {
    let d = build_domain(3, 10, 3).unwrap();
    assert_eq!(d.len(), (10 - 3) / 3 + 1);
    assert_eq!(sorted(d), vec![3, 6, 10]);
}

#[test]
fn build_domain_zero_to_ten_by_five() {
    let d = build_domain(0, 10, 5).unwrap();
    assert_eq!(sorted(d), vec![0, 5, 10]);
}

#[test]
fn build_domain_exact_step() {
    let d = build_domain(2, 8, 2).unwrap();
    assert_eq!(d.len(), 4);
    assert_eq!(sorted(d), vec![2, 4, 6, 8]);
}

#[test]
fn build_domain_single_point() {
    let d = build_domain(7, 7, 3).unwrap();
    assert_eq!(d, vec![7]);
}

#[test]
fn build_domain_no_duplicates() {
    let mut d = build_domain(0, 1000, 7).unwrap();
    let n = d.len();
    assert_eq!(n, 1000 / 7 + 1);
    d.sort();
    d.dedup();
    assert_eq!(d.len(), n);
}

#[test]
fn build_domain_zero_step_fails_fast() {
    assert_eq!(build_domain(0, 10, 0), Err(ParamError::ZeroStep));
}

#[test]
fn build_domain_reversed_bounds_fail() {
    assert_eq!(build_domain(10, 3, 2), Err(ParamError::BoundsReversed));
}

#[test]
fn register_twice_is_a_duplicate_error() {
    let mut r = ParameterRegistry::new();
    let d1 = build_domain(0, 4, 2).unwrap();
    let d2 = build_domain(0, 4, 2).unwrap();
    assert!(r.register("alpha".to_string(), d1).is_ok());
    assert_eq!(
        r.register("alpha".to_string(), d2),
        Err(ParamError::DuplicateParameter)
    );
    assert_eq!(r.count(), 1);
}

#[test]
fn registration_assigns_dense_indices_in_order() {
    let mut r = ParameterRegistry::new();
    let names = ["a", "b", "c", "d"];
    for name in names.iter() {
        let d = build_domain(0, 4, 2).unwrap();
        r.register(name.to_string(), d).unwrap();
    }
    assert_eq!(r.count(), 4);
    for (i, name) in names.iter().enumerate() {
        assert_eq!(r.index_of(&name.to_string()), Ok(i));
    }
}

#[test]
fn unknown_name_lookups_fail() {
    let r = ParameterRegistry::new();
    assert_eq!(
        r.index_of(&"missing".to_string()),
        Err(ParamError::UnknownParameter)
    );
    assert!(matches!(
        r.domain_of(&"missing".to_string()),
        Err(ParamError::UnknownParameter)
    ));
}

#[test]
fn domain_of_returns_the_registered_domain() {
    let mut r = ParameterRegistry::new();
    let d = build_domain(1, 3, 1).unwrap();
    let expected = d.clone();
    r.register("p".to_string(), d).unwrap();
    let got = r.domain_of(&"p".to_string()).unwrap();
    assert_eq!(*got, expected);
}

#[test]
fn contains_and_insert_is_test_and_set() {
    let mut v = VisitedStateIndex::new();
    assert_eq!(v.size(), 0);
    assert!(v.contains_and_insert(vec![0, 1, 2]));
    assert!(!v.contains_and_insert(vec![0, 1, 2]));
    assert!(!v.contains_and_insert(vec![0, 1, 2]));
    assert_eq!(v.size(), 1);
    assert!(v.contains_and_insert(vec![0, 1, 3]));
    assert_eq!(v.size(), 2);
    assert!(v.contains(&vec![0, 1, 2]));
    assert!(!v.contains(&vec![9, 9, 9]));
}
