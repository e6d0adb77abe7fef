use anneal_params::{ParamDecl, ParamError, ParamsConfigurator};

fn decl(name: &str, lower: u32, upper: u32, step: u32, default_value: u32) -> ParamDecl {
    ParamDecl {
        name: name.to_string(),
        lower,
        upper,
        step,
        default_value,
    }
}

fn two_param_configurator() -> (ParamsConfigurator, Vec<u32>) {
    let mut c = ParamsConfigurator::new();
    let decls = vec![decl("a", 1, 3, 1, 1), decl("b", 10, 20, 10, 10)];
    let init = c.get_initial_param_conf(&decls).unwrap();
    assert_eq!(init.len(), 2);
    assert_eq!(init[0].0, "a");
    assert_eq!(init[0].1, 1);
    assert_eq!(init[1].0, "b");
    assert_eq!(init[1].1, 10);
    (c, vec![1, 10])
}

#[test]
fn initial_conf_reports_the_first_bad_declaration() {
    let mut c = ParamsConfigurator::new();
    let decls = vec![decl("a", 1, 3, 1, 1), decl("b", 5, 9, 0, 5)];
    assert_eq!(c.get_initial_param_conf(&decls), Err(ParamError::ZeroStep));

    let mut c = ParamsConfigurator::new();
    let decls = vec![decl("a", 1, 3, 1, 1), decl("a", 10, 20, 10, 10)];
    assert_eq!(
        c.get_initial_param_conf(&decls),
        Err(ParamError::DuplicateParameter)
    );

    let mut c = ParamsConfigurator::new();
    let decls = vec![decl("a", 9, 3, 1, 1)];
    assert_eq!(
        c.get_initial_param_conf(&decls),
        Err(ParamError::BoundsReversed)
    );
}

#[test]
fn decay_starts_at_sixty_percent_and_never_grows() {
    let (c, _) = two_param_configurator();
    // 2 parameters, fraction 0.6: floor(2 * 0.6) = 1 parameter varies at step 0.
    assert_eq!(c.num_to_vary(100, 0), 1);
    // One tenth is lost every 100/6 steps: still 1 at step 17, 0 from step 34.
    assert_eq!(c.num_to_vary(100, 17), 1);
    assert_eq!(c.num_to_vary(100, 34), 0);
    assert_eq!(c.num_to_vary(100, 100), 0);
    let mut prev = c.num_to_vary(100, 0);
    for step in 1..=200u64 {
        let cur = c.num_to_vary(100, step);
        assert!(cur <= prev);
        prev = cur;
    }
}

#[test]
fn proposals_vary_at_most_the_allowed_parameters() {
    let (c, start) = two_param_configurator();
    for _ in 0..50 {
        let cand = c.propose_candidate(&start, 1);
        let diffs = cand
            .iter()
            .zip(start.iter())
            .filter(|(x, y)| x != y)
            .count();
        assert!(diffs <= 1);
        assert!([1, 2, 3].contains(&cand[0]));
        assert!([10, 20].contains(&cand[1]));
    }
}

#[test]
fn sampler_never_repeats_and_exhausts_the_whole_space() {
    let (mut c, start) = two_param_configurator();
    let mut current = start;
    let mut seen: Vec<Vec<u32>> = Vec::new();
    loop {
        match c.get_rand_neighborhood(&current, 100, 0) {
            Some(cfg) => {
                assert!([1, 2, 3].contains(&cfg[0]));
                assert!([10, 20].contains(&cfg[1]));
                assert!(!seen.contains(&cfg), "a configuration came back twice");
                seen.push(cfg.clone());
                current = cfg;
            }
            None => break,
        }
        assert!(seen.len() <= 6);
    }
    // Exactly the 6 combinations of {1,2,3} x {10,20}, each once.
    assert_eq!(seen.len(), 6);
    for a in [1u32, 2, 3] {
        for b in [10u32, 20] {
            assert!(seen.contains(&vec![a, b]));
        }
    }
    // Exhaustion is stable: the signal comes again.
    assert!(c.get_rand_neighborhood(&current, 100, 0).is_none());
}

#[test]
fn two_successive_samples_differ() {
    let (mut c, start) = two_param_configurator();
    let first = c.get_rand_neighborhood(&start, 100, 0).unwrap();
    let second = c.get_rand_neighborhood(&first, 100, 0).unwrap();
    assert_ne!(first, second);
}

#[test]
fn tiny_space_exhausts_after_two_samples_without_hanging() {
    let mut c = ParamsConfigurator::new();
    let decls = vec![decl("only", 5, 7, 2, 5)];
    let init = c.get_initial_param_conf(&decls).unwrap();
    assert_eq!(init, vec![("only".to_string(), 5)]);
    let mut current = vec![5u32];
    let mut successes: usize = 0;
    loop {
        match c.get_rand_neighborhood(&current, 10, 0) {
            Some(cfg) => {
                assert!(cfg == vec![5] || cfg == vec![7]);
                successes += 1;
                current = cfg;
            }
            None => break,
        }
        assert!(successes <= 2);
    }
    assert_eq!(successes, 2);
    assert!(c.get_rand_neighborhood(&current, 10, 0).is_none());
}
