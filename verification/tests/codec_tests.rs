use yara_x::compiler::compile;
use yara_x::rules::{CompiledRule, CompiledRules, MetaValue, Pattern};
use yara_x::scanner::Scanner;
use yara_x::vm::Instr;

fn matching_identifiers(rules: &CompiledRules, data: &[u8]) -> Vec<String> {
    let mut scanner = Scanner::new(rules);
    let results = scanner.scan(data).unwrap();
    let mut out = Vec::new();
    let mut it = results.iter();
    loop {
        match it.next() {
            Some(rule) => out.push(rule.identifier().to_string()),
            None => break,
        }
    }
    out
}

fn sample_rules() -> CompiledRules {
    compile(
        b"import \"olecf\" \
          rule alpha { meta: author = \"x\" level = 2 live = false \
                       strings: $a = \"AB\" $b = \"needle\" \
                       condition: $a or $b } \
          rule beta { condition: filesize > 4 } \
          rule gamma { condition: false }",
    )
    .unwrap()
}

#[test]
fn serialize_deserialize_round_trip_is_exact() {
    let rules = sample_rules();
    let bytes = rules.serialize().unwrap();
    let back = CompiledRules::deserialize(&bytes).unwrap();
    assert_eq!(back, rules);
}

#[test]
fn round_trip_preserves_match_sets() {
    let rules = sample_rules();
    let bytes = rules.serialize().unwrap();
    let back = CompiledRules::deserialize(&bytes).unwrap();
    let corpus: [&[u8]; 4] = [b"", b"zzABzz", b"a needle in here", b"12345"];
    for data in corpus {
        assert_eq!(
            matching_identifiers(&rules, data),
            matching_identifiers(&back, data),
        );
    }
}

#[test]
fn round_trip_of_empty_rule_set() {
    let rules = compile(b"").unwrap();
    let bytes = rules.serialize().unwrap();
    let back = CompiledRules::deserialize(&bytes).unwrap();
    assert_eq!(back, rules);
}

#[test]
fn version_mismatch_is_rejected() {
    let rules = sample_rules();
    let mut bytes = rules.serialize().unwrap();
    bytes[0] = bytes[0].wrapping_add(1);
    assert!(CompiledRules::deserialize(&bytes).is_err());
}

#[test]
fn trailing_bytes_are_rejected() {
    let rules = sample_rules();
    let mut bytes = rules.serialize().unwrap();
    bytes.push(0);
    assert!(CompiledRules::deserialize(&bytes).is_err());
}

#[test]
fn truncated_artifact_is_rejected() {
    let rules = sample_rules();
    let bytes = rules.serialize().unwrap();
    assert!(CompiledRules::deserialize(&bytes[..bytes.len() - 1]).is_err());
    assert!(CompiledRules::deserialize(&bytes[..3]).is_err());
}

#[test]
fn malformed_artifacts_are_rejected_on_deserialize() {
    // An empty pattern byte string breaks the artifact's invariants: the
    // encoding is readable but deserialization refuses it.
    let broken = CompiledRules {
        rules: vec![CompiledRule {
            identifier: "bad".to_string(),
            namespace: String::new(),
            metadata: Vec::new(),
            patterns: vec![Pattern { identifier: "$x".to_string(), bytes: Vec::new() }],
            program: vec![Instr::PushInt(1)],
        }],
        imports: Vec::new(),
    };
    let bytes = broken.serialize().unwrap();
    assert!(CompiledRules::deserialize(&bytes).is_err());
    // So does an import that names no built-in module.
    let unknown_import = CompiledRules {
        rules: Vec::new(),
        imports: vec!["nonexistent".to_string()],
    };
    let bytes2 = unknown_import.serialize().unwrap();
    assert!(CompiledRules::deserialize(&bytes2).is_err());
}

#[test]
fn garbage_is_rejected() {
    assert!(CompiledRules::deserialize(b"").is_err());
    assert!(CompiledRules::deserialize(b"garbage bytes here").is_err());
}

#[test]
fn float_bits_and_raw_bytes_metadata_round_trip() {
    // The compiler's grammar never emits these metadata kinds; build the
    // artifact by hand to cover their encoding.
    let rules = CompiledRules {
        rules: vec![CompiledRule {
            identifier: "handmade".to_string(),
            namespace: "ns".to_string(),
            metadata: vec![
                ("pi".to_string(), MetaValue::FloatBits(3.5f64.to_bits())),
                ("blob".to_string(), MetaValue::Bytes(vec![0, 1, 254, 255])),
            ],
            patterns: vec![Pattern { identifier: "$x".to_string(), bytes: b"zz".to_vec() }],
            program: vec![Instr::PushPattern(0)],
        }],
        imports: Vec::new(),
    };
    let bytes = rules.serialize().unwrap();
    let back = CompiledRules::deserialize(&bytes).unwrap();
    assert_eq!(back, rules);
    match &back.rules[0].metadata[0].1 {
        MetaValue::FloatBits(b) => assert_eq!(f64::from_bits(*b), 3.5),
        other => panic!("expected float bits, got {:?}", other),
    }
}

#[test]
fn non_ascii_metadata_round_trips() {
    let rules = compile(
        "rule u { meta: note = \"caf\u{e9} touch\u{e9}\" condition: true }".as_bytes(),
    )
    .unwrap();
    let bytes = rules.serialize().unwrap();
    let back = CompiledRules::deserialize(&bytes).unwrap();
    assert_eq!(back, rules);
}
