use lautr::{Category, ReasonerError, StringInterner, TrustModelReasoner, UDrv};

#[test]
fn intern_assigns_dense_ids_in_order() {
    let mut i = StringInterner::new();
    let a = i.udrv("alpha").unwrap();
    let b = i.udrv("beta").unwrap();
    assert_eq!(a, UDrv(0));
    assert_eq!(b, UDrv(1));
    let a2 = i.udrv("alpha").unwrap();
    assert_eq!(a2, UDrv(0));
    assert_eq!(i.get_string(0), Some("alpha".to_string()));
    assert_eq!(i.get_string(1), Some("beta".to_string()));
    assert_eq!(i.get_string(2), None);
}

#[test]
fn intern_refuses_category_confusion() {
    let mut i = StringInterner::new();
    let _ = i.udrv("x").unwrap();
    assert!(i.rdrv("x").is_none());
    assert!(i.content_hash("x").is_none());
    assert!(i.udrv("x").is_some());
    assert_eq!(i.category_of("x"), Some(Category::Udrv));
    assert_eq!(i.category_of("y"), None);
}

#[test]
fn interner_counts_and_listings() {
    let mut i = StringInterner::new();
    let u = i.udrv("drv").unwrap();
    let r = i.rdrv("res").unwrap();
    let t = i.trust_model("key").unwrap();
    let h = i.content_hash("hash").unwrap();
    let o = i.udrv_output("drv$out").unwrap();
    assert_eq!(i.udrvs_count(), 1);
    assert_eq!(i.rdrvs_count(), 1);
    assert_eq!(i.trust_models_count(), 1);
    assert_eq!(i.content_hashes_count(), 1);
    assert_eq!(i.udrv_outputs_count(), 1);
    assert_eq!(i.all_udrvs(), vec![u]);
    assert_eq!(i.all_rdrvs(), vec![r]);
    assert_eq!(i.all_trust_models(), vec![t]);
    assert_eq!(i.all_content_hashes(), vec![h]);
    assert_eq!(i.all_udrv_outputs(), vec![o]);
    assert_eq!(i.udrv_str(u), Some("drv".to_string()));
    assert_eq!(i.rdrv_str(r), Some("res".to_string()));
    assert_eq!(i.trust_model_str(t), Some("key".to_string()));
    assert_eq!(i.content_hash_str(h), Some("hash".to_string()));
    assert_eq!(i.udrv_output_str(o), Some("drv$out".to_string()));
}

fn keys(v: &[&str]) -> Vec<String> {
    v.iter().map(|s| s.to_string()).collect()
}

#[test]
fn new_rejects_empty_keys() {
    let r = TrustModelReasoner::new(Vec::new(), 1, "root".to_string());
    assert!(matches!(r, Err(ReasonerError::InvalidConfig)));
}

#[test]
fn new_rejects_zero_threshold() {
    let r = TrustModelReasoner::new(keys(&["key1"]), 0, "root".to_string());
    assert!(matches!(r, Err(ReasonerError::InvalidConfig)));
}

#[test]
fn new_rejects_threshold_above_key_count() {
    let r = TrustModelReasoner::new(keys(&["key1"]), 2, "root".to_string());
    assert!(matches!(r, Err(ReasonerError::InvalidConfig)));
}

#[test]
fn new_accepts_two_keys_threshold_two() {
    let r = TrustModelReasoner::new(keys(&["key1", "key2"]), 2, "output1".to_string());
    assert!(r.is_ok());
}

#[test]
fn ingestion_accepts_a_simple_chain() {
    let mut rz = TrustModelReasoner::new(keys(&["key1", "key2"]), 2, "output1".to_string())
        .unwrap();
    rz.add_fod("fod1", "hash1").unwrap();
    rz.add_unresolved_derivation(
        "dep1",
        keys(&["fod1$out"]),
        keys(&["dep1$out"]),
    )
    .unwrap();
    rz.add_unresolved_derivation(
        "output1",
        keys(&["dep1$out"]),
        keys(&["output1$out"]),
    )
    .unwrap();
    rz.add_resolved_derivation(
        "dep1",
        "rdep1",
        vec![("dep1$out".to_string(), "bdep1".to_string())],
    )
    .unwrap();
    rz.add_build_output_claim(
        "rdep1",
        vec![("dep1$out".to_string(), "bdep1".to_string())],
        "key1",
    )
    .unwrap();
    // re-adding the same facts is idempotent and accepted
    rz.add_fod("fod1", "hash1").unwrap();
    rz.add_build_output_claim(
        "rdep1",
        vec![("dep1$out".to_string(), "bdep1".to_string())],
        "key1",
    )
    .unwrap();
}

#[test]
fn ingestion_rejects_category_confusion() {
    let mut rz = TrustModelReasoner::new(keys(&["key1"]), 1, "output1".to_string()).unwrap();
    rz.add_fod("fod1", "hash1").unwrap();
    // "fod1" is a derivation, not a resolved derivation
    let r = rz.add_build_output_claim(
        "fod1",
        vec![("o".to_string(), "h".to_string())],
        "key1",
    );
    assert!(matches!(r, Err(ReasonerError::UnknownInput)));
    // "hash1" is a content hash, not a derivation
    let r2 = rz.add_fod("hash1", "other");
    assert!(matches!(r2, Err(ReasonerError::UnknownInput)));
}

#[test]
fn fod_hash_must_differ_from_its_name() {
    let mut rz = TrustModelReasoner::new(keys(&["key1"]), 1, "output1".to_string()).unwrap();
    let r = rz.add_fod("same", "same");
    assert!(matches!(r, Err(ReasonerError::UnknownInput)));
}

#[test]
fn test_trust_propagation() {
    // Create a reasoner with 2 trusted keys and threshold 2
    let mut reasoner = TrustModelReasoner::new(
        vec!["key1".to_string(), "key2".to_string()],
        2,
        "output1".to_string(),
    )
    .unwrap();

    // Add a simple chain: fod -> dep -> output
    reasoner.add_fod("fod1", "hash1").unwrap();
    reasoner
        .add_unresolved_derivation(
            "dep1",
            vec!["fod1$out".to_string()],
            vec!["dep1$out".to_string()],
        )
        .unwrap();
    reasoner
        .add_unresolved_derivation(
            "output1",
            vec!["dep1$out".to_string()],
            vec!["output1$out".to_string()],
        )
        .unwrap();

    // Add resolved derivations
    reasoner
        .add_resolved_derivation(
            "dep1",
            "resolved_dep1",
            vec![("dep1$out".to_string(), "build_dep1".to_string())],
        )
        .unwrap();
    reasoner
        .add_resolved_derivation(
            "output1",
            "resolved_output1",
            vec![("output1$out".to_string(), "build_output1".to_string())],
        )
        .unwrap();

    // Add signatures from both keys
    reasoner
        .add_build_output_claim(
            "resolved_dep1",
            vec![("dep1$out".to_string(), "build_dep1".to_string())],
            "key1",
        )
        .unwrap();
    reasoner
        .add_build_output_claim(
            "resolved_dep1",
            vec![("dep1$out".to_string(), "build_dep1".to_string())],
            "key2",
        )
        .unwrap();
    reasoner
        .add_build_output_claim(
            "resolved_output1",
            vec![("output1$out".to_string(), "build_output1".to_string())],
            "key1",
        )
        .unwrap();
    reasoner
        .add_build_output_claim(
            "resolved_output1",
            vec![("output1$out".to_string(), "build_output1".to_string())],
            "key2",
        )
        .unwrap();

    // Run the computation
    let result = reasoner.compute_result().unwrap();

    // Check that we get a result
    if result.is_empty() {
        panic!("Expected non-empty result from trust computation");
    }
}

/// Add the build chain of spec's first scenario: a fixed-output leaf,
/// a dependency, the root "output1", and resolutions rdep1 and rout1.
fn add_chain(rz: &mut TrustModelReasoner) {
    rz.add_fod("fod1", "hash1").unwrap();
    rz.add_unresolved_derivation(
        "dep1",
        vec!["fod1$out".to_string()],
        vec!["dep1$out".to_string()],
    )
    .unwrap();
    rz.add_unresolved_derivation(
        "output1",
        vec!["dep1$out".to_string()],
        vec!["output1$out".to_string()],
    )
    .unwrap();
    rz.add_resolved_derivation(
        "dep1",
        "rdep1",
        vec![("dep1$out".to_string(), "bdep1".to_string())],
    )
    .unwrap();
    rz.add_resolved_derivation(
        "output1",
        "rout1",
        vec![("output1$out".to_string(), "bout1".to_string())],
    )
    .unwrap();
}

/// The chain of spec's first scenario: keys key1/key2, threshold 2,
/// root "output1", with resolutions rdep1 and rout1.
fn scenario_chain() -> TrustModelReasoner {
    let mut rz = TrustModelReasoner::new(
        vec!["key1".to_string(), "key2".to_string()],
        2,
        "output1".to_string(),
    )
    .unwrap();
    add_chain(&mut rz);
    rz
}

fn claim(rz: &mut TrustModelReasoner, rdrv: &str, out: &str, hash: &str, key: &str) {
    rz.add_build_output_claim(rdrv, vec![(out.to_string(), hash.to_string())], key)
        .unwrap();
}

#[test]
fn trivial_pass_threshold_two_two_keys() {
    let mut rz = scenario_chain();
    claim(&mut rz, "rdep1", "dep1$out", "bdep1", "key1");
    claim(&mut rz, "rdep1", "dep1$out", "bdep1", "key2");
    claim(&mut rz, "rout1", "output1$out", "bout1", "key1");
    claim(&mut rz, "rout1", "output1$out", "bout1", "key2");
    let result = rz.compute_result().unwrap();
    assert_eq!(result, vec!["rout1".to_string()]);
}

#[test]
fn threshold_failure_with_one_signature() {
    let mut rz = scenario_chain();
    claim(&mut rz, "rdep1", "dep1$out", "bdep1", "key1");
    claim(&mut rz, "rdep1", "dep1$out", "bdep1", "key2");
    claim(&mut rz, "rout1", "output1$out", "bout1", "key1");
    let result = rz.compute_result().unwrap();
    assert_eq!(result, Vec::<String>::new());
}

#[test]
fn wrong_root_yields_nothing() {
    let mut rz = TrustModelReasoner::new(
        vec!["key1".to_string(), "key2".to_string()],
        2,
        "missing".to_string(),
    )
    .unwrap();
    rz.add_fod("fod1", "hash1").unwrap();
    rz.add_unresolved_derivation(
        "dep1",
        vec!["fod1$out".to_string()],
        vec!["dep1$out".to_string()],
    )
    .unwrap();
    rz.add_unresolved_derivation(
        "output1",
        vec!["dep1$out".to_string()],
        vec!["output1$out".to_string()],
    )
    .unwrap();
    rz.add_resolved_derivation(
        "dep1",
        "rdep1",
        vec![("dep1$out".to_string(), "bdep1".to_string())],
    )
    .unwrap();
    rz.add_resolved_derivation(
        "output1",
        "rout1",
        vec![("output1$out".to_string(), "bout1".to_string())],
    )
    .unwrap();
    claim(&mut rz, "rdep1", "dep1$out", "bdep1", "key1");
    claim(&mut rz, "rdep1", "dep1$out", "bdep1", "key2");
    claim(&mut rz, "rout1", "output1$out", "bout1", "key1");
    claim(&mut rz, "rout1", "output1$out", "bout1", "key2");
    let result = rz.compute_result().unwrap();
    assert_eq!(result, Vec::<String>::new());
}

#[test]
fn non_leaf_fod_fails_verification() {
    let mut rz = scenario_chain();
    claim(&mut rz, "rdep1", "dep1$out", "bdep1", "key1");
    claim(&mut rz, "rdep1", "dep1$out", "bdep1", "key2");
    claim(&mut rz, "rout1", "output1$out", "bout1", "key1");
    claim(&mut rz, "rout1", "output1$out", "bout1", "key2");
    rz.add_unresolved_derivation("fod1", vec!["dep1$out".to_string()], Vec::new())
        .unwrap();
    let result = rz.compute_result().unwrap();
    assert_eq!(result, Vec::<String>::new());
}

#[test]
fn idempotent_claims_still_pass() {
    let mut rz = scenario_chain();
    for _ in 0..2 {
        claim(&mut rz, "rdep1", "dep1$out", "bdep1", "key1");
        claim(&mut rz, "rdep1", "dep1$out", "bdep1", "key2");
        claim(&mut rz, "rout1", "output1$out", "bout1", "key1");
        claim(&mut rz, "rout1", "output1$out", "bout1", "key2");
    }
    let result = rz.compute_result().unwrap();
    assert_eq!(result, vec!["rout1".to_string()]);
}

#[test]
fn threshold_one_single_key_passes() {
    let mut rz = TrustModelReasoner::new(vec!["solo".to_string()], 1, "drv".to_string()).unwrap();
    rz.add_unresolved_derivation("drv", Vec::new(), vec!["drv$out".to_string()])
        .unwrap();
    rz.add_resolved_derivation(
        "drv",
        "rdrv",
        vec![("drv$out".to_string(), "built".to_string())],
    )
    .unwrap();
    claim(&mut rz, "rdrv", "drv$out", "built", "solo");
    let result = rz.compute_result().unwrap();
    assert_eq!(result, vec!["rdrv".to_string()]);
}

#[test]
fn root_without_declared_outputs_fails() {
    let mut rz = TrustModelReasoner::new(vec!["solo".to_string()], 1, "bare".to_string()).unwrap();
    rz.add_resolved_derivation("bare", "rbare", Vec::new()).unwrap();
    claim(&mut rz, "rbare", "o", "h", "solo");
    let result = rz.compute_result().unwrap();
    assert_eq!(result, Vec::<String>::new());
}

#[test]
fn unresolved_root_fails() {
    let mut rz = TrustModelReasoner::new(vec!["solo".to_string()], 1, "drv".to_string()).unwrap();
    rz.add_unresolved_derivation("drv", Vec::new(), vec!["drv$out".to_string()])
        .unwrap();
    let result = rz.compute_result().unwrap();
    assert_eq!(result, Vec::<String>::new());
}

#[test]
fn multiple_resolutions_each_judged() {
    let mut rz = TrustModelReasoner::new(
        vec!["key1".to_string(), "key2".to_string()],
        2,
        "drv".to_string(),
    )
    .unwrap();
    rz.add_unresolved_derivation("drv", Vec::new(), vec!["drv$out".to_string()])
        .unwrap();
    rz.add_resolved_derivation(
        "drv",
        "ra",
        vec![("drv$out".to_string(), "ha".to_string())],
    )
    .unwrap();
    rz.add_resolved_derivation(
        "drv",
        "rb",
        vec![("drv$out".to_string(), "hb".to_string())],
    )
    .unwrap();
    claim(&mut rz, "ra", "drv$out", "ha", "key1");
    claim(&mut rz, "ra", "drv$out", "ha", "key2");
    claim(&mut rz, "rb", "drv$out", "hb", "key1");
    let mut result = rz.compute_result().unwrap();
    result.sort();
    assert_eq!(result, vec!["ra".to_string()]);
}

#[test]
fn evaluation_freezes_the_reasoner() {
    let mut rz = TrustModelReasoner::new(vec!["solo".to_string()], 1, "drv".to_string()).unwrap();
    rz.add_unresolved_derivation("drv", Vec::new(), vec!["drv$out".to_string()])
        .unwrap();
    let _ = rz.compute_result().unwrap();
    assert!(matches!(
        rz.compute_result(),
        Err(ReasonerError::StateMisuse)
    ));
    assert!(matches!(
        rz.add_fod("late", "h"),
        Err(ReasonerError::StateMisuse)
    ));
    assert!(matches!(
        rz.add_unresolved_derivation("late", Vec::new(), Vec::new()),
        Err(ReasonerError::StateMisuse)
    ));
    assert!(matches!(
        rz.add_resolved_derivation("late", "rlate", Vec::new()),
        Err(ReasonerError::StateMisuse)
    ));
    assert!(matches!(
        rz.add_build_output_claim("rlate", Vec::new(), "solo"),
        Err(ReasonerError::StateMisuse)
    ));
}

#[test]
fn claims_by_unknown_keys_do_not_count() {
    let mut rz = TrustModelReasoner::new(vec!["solo".to_string()], 1, "drv".to_string()).unwrap();
    rz.add_unresolved_derivation("drv", Vec::new(), vec!["drv$out".to_string()])
        .unwrap();
    rz.add_resolved_derivation(
        "drv",
        "rdrv",
        vec![("drv$out".to_string(), "built".to_string())],
    )
    .unwrap();
    claim(&mut rz, "rdrv", "drv$out", "built", "stranger");
    let result = rz.compute_result().unwrap();
    assert_eq!(result, Vec::<String>::new());
}

/// Set up two composite models of two keys each and a super-model whose
/// children are both of them and the default model.
fn hierarchical_setup() -> TrustModelReasoner {
    let mut rz = TrustModelReasoner::new(
        vec!["key1".to_string(), "key2".to_string()],
        2,
        "output1".to_string(),
    )
    .unwrap();
    rz.add_trust_model("modelA", 2, false, None).unwrap();
    rz.add_trust_model("keyA1", 1, true, Some("modelA")).unwrap();
    rz.add_trust_model("keyA2", 1, true, Some("modelA")).unwrap();
    rz.add_trust_model("modelB", 2, false, None).unwrap();
    rz.add_trust_model("keyB1", 1, true, Some("modelB")).unwrap();
    rz.add_trust_model("keyB2", 1, true, Some("modelB")).unwrap();
    rz.add_trust_model("superS", 2, false, None).unwrap();
    rz.add_trust_model("modelA", 2, false, Some("superS")).unwrap();
    rz.add_trust_model("modelB", 2, false, Some("superS")).unwrap();
    rz.add_trust_model("default_trust_model", 2, false, Some("superS"))
        .unwrap();
    add_chain(&mut rz);
    rz
}

#[test]
fn hierarchical_trust_without_default_agreement_returns_nothing() {
    // both side models attest the root's outputs, but the returned list
    // follows the default model's threshold, which no key of the default
    // model supports
    let mut rz = hierarchical_setup();
    for key in ["keyA1", "keyA2", "keyB1", "keyB2"] {
        claim(&mut rz, "rdep1", "dep1$out", "bdep1", key);
        claim(&mut rz, "rout1", "output1$out", "bout1", key);
    }
    let result = rz.compute_result().unwrap();
    assert_eq!(result, Vec::<String>::new());
}

#[test]
fn hierarchical_trust_with_default_agreement_passes() {
    let mut rz = hierarchical_setup();
    for key in ["keyA1", "keyA2", "keyB1", "keyB2", "key1", "key2"] {
        claim(&mut rz, "rdep1", "dep1$out", "bdep1", key);
        claim(&mut rz, "rout1", "output1$out", "bout1", key);
    }
    let result = rz.compute_result().unwrap();
    assert_eq!(result, vec!["rout1".to_string()]);
}

#[test]
fn trust_model_configuration_is_validated() {
    let mut rz = TrustModelReasoner::new(vec!["solo".to_string()], 1, "drv".to_string()).unwrap();
    // a key must have threshold 1 and a parent
    assert!(matches!(
        rz.add_trust_model("k", 2, true, Some("default_trust_model")),
        Err(ReasonerError::InvalidConfig)
    ));
    assert!(matches!(
        rz.add_trust_model("k", 1, true, None),
        Err(ReasonerError::InvalidConfig)
    ));
    // thresholds are positive
    assert!(matches!(
        rz.add_trust_model("m", 0, false, None),
        Err(ReasonerError::InvalidConfig)
    ));
    // the parent must already be configured as a composite
    assert!(matches!(
        rz.add_trust_model("k", 1, true, Some("absent")),
        Err(ReasonerError::InvalidConfig)
    ));
    assert!(matches!(
        rz.add_trust_model("k", 1, true, Some("solo")),
        Err(ReasonerError::InvalidConfig)
    ));
    // an existing element may be restated identically but not changed
    rz.add_trust_model("m", 2, false, None).unwrap();
    rz.add_trust_model("m", 2, false, None).unwrap();
    assert!(matches!(
        rz.add_trust_model("m", 3, false, None),
        Err(ReasonerError::InvalidConfig)
    ));
    // a name interned under another category is refused
    rz.add_fod("fodx", "hx").unwrap();
    assert!(matches!(
        rz.add_trust_model("fodx", 1, false, None),
        Err(ReasonerError::UnknownInput)
    ));
    // configuration ends with evaluation
    let _ = rz.compute_result().unwrap();
    assert!(matches!(
        rz.add_trust_model("late", 1, false, None),
        Err(ReasonerError::StateMisuse)
    ));
}
