use fish::slsa::{BuildStep, KeyValue, SlsaGenerator};

fn kv(k: &str, v: &str) -> KeyValue {
    KeyValue { key: k.to_string(), value: v.to_string() }
}

#[test]
fn test_slsa_provenance_generation() {
    let doc = SlsaGenerator::generate_v1("output.bin", "abc123blake3hash", "0.4.0");
    assert_eq!(doc.doc_type, "https://in-toto.io/Statement/v1");
    assert_eq!(doc.subject.len(), 1);
    assert_eq!(doc.subject[0].name, "output.bin");
    assert_eq!(doc.predicate.builder.id, "https://github.com/requla11/fish");
}

#[test]
fn test_slsa_l3_generation_and_verification() {
    let materials = vec![
        ("https://github.com/requla11/fish".to_string(), "sha256".to_string(), "abc123".to_string()),
        ("https://crates.io/crate/fish-core".to_string(), "sha256".to_string(), "def456".to_string()),
    ];

    let build_steps = vec![BuildStep {
        command: vec!["cargo".to_string(), "build".to_string(), "--release".to_string()],
        env: vec![kv("CARGO_TERM_QUIET", "true")],
        working_dir: "/workspace".to_string(),
    }];

    let params = vec![kv("target", "x86_64-unknown-linux-gnu")];

    let provenance = SlsaGenerator::generate_slsa_l3(
        "fish-cli",
        "blake3_hash_1234567890",
        "sha256_hash_abcdef",
        "0.4.0",
        materials,
        build_steps,
        params,
    );

    assert_eq!(provenance.subject[0].digest.len(), 2);
    assert!(provenance.predicate.build_config.is_some());
    assert!(provenance.predicate.metadata.is_some());

    let verification = SlsaGenerator::verify_slsa_l3_compliance(&provenance);
    assert!(verification.is_slsa_l3_compliant);
    assert_eq!(verification.compliant_level, 3);
    assert!(verification.issues.is_empty());

    assert_eq!(provenance.doc_type, "https://in-toto.io/Statement/v1");
}

#[test]
fn test_slsa_requirements() {
    let l3 = SlsaGenerator::get_slsa_requirements(3);
    assert_eq!(l3.level, 3);
    assert!(l3.requirements.iter().any(|r| r.contains("hermetic")));
}

#[test]
fn test_slsa_verification_failure() {
    let doc = SlsaGenerator::generate_v1("output.bin", "abc123", "0.4.0");
    let verification = SlsaGenerator::verify_slsa_l3_compliance(&doc);
    assert!(!verification.is_slsa_l3_compliant);
    assert!(!verification.issues.is_empty());
}

#[test]
fn l3_without_materials_is_not_compliant() {
    let provenance = SlsaGenerator::generate_slsa_l3("a", "b", "c", "0.4.0", vec![], vec![], vec![]);
    let verification = SlsaGenerator::verify_slsa_l3_compliance(&provenance);
    assert!(!verification.is_slsa_l3_compliant);
    assert!(verification.compliant_level < 3);
}

#[test]
fn requirements_grow_with_level() {
    let l1 = SlsaGenerator::get_slsa_requirements(1);
    let l2 = SlsaGenerator::get_slsa_requirements(2);
    let l3 = SlsaGenerator::get_slsa_requirements(3);
    assert_eq!(l1.level, 1);
    assert_eq!(l2.level, 2);
    assert!(l1.requirements.len() < l2.requirements.len());
    assert!(l2.requirements.len() < l3.requirements.len());
}

#[test]
fn provenance_carries_the_given_build_times() {
    let start = "2024-01-01T00:00:00+00:00".to_string();
    let end = "2024-01-01T00:05:00+00:00".to_string();
    let doc = SlsaGenerator::generate_v1_at("out.bin", "h", "0.4.0", start.clone(), end.clone());
    let md = doc.predicate.metadata.unwrap();
    assert_eq!((md.build_started_on, md.build_finished_on), (start.clone(), end.clone()));
    let l3 = SlsaGenerator::generate_slsa_l3_at("out.bin", "h", "s", "0.4.0", vec![], vec![], vec![kv("k", "v")], start.clone(), end);
    assert_eq!(l3.predicate.metadata.unwrap().build_started_on, start);
    let now = SlsaGenerator::generate_v1("out.bin", "h", "0.4.0").predicate.metadata.unwrap().build_started_on;
    assert_eq!(now.len() >= 20, true);
    assert!(now.ends_with("+00:00"));
}
