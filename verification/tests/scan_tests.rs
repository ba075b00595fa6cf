use yara_x::compiler::compile;
use yara_x::matcher::Match;
use yara_x::rules::{CompiledRule, CompiledRules, MetaValue};
use yara_x::scanner::Scanner;
use yara_x::vm::Instr;

fn matching_identifiers(rules: &CompiledRules, data: &[u8]) -> Vec<String> {
    let mut scanner = Scanner::new(rules);
    let results = scanner.scan(data).unwrap();
    let mut out = Vec::new();
    let mut it = results.iter();
    loop {
        match it.next() {
            Some(rule) => out.push(rule.identifier().to_string()),
            None => break,
        }
    }
    out
}

fn non_matching_identifiers(rules: &CompiledRules, data: &[u8]) -> Vec<String> {
    let mut scanner = Scanner::new(rules);
    let results = scanner.scan(data).unwrap();
    let mut out = Vec::new();
    let mut it = results.iter_non_matches();
    loop {
        match it.next() {
            Some(rule) => out.push(rule.identifier().to_string()),
            None => break,
        }
    }
    out
}

#[test]
fn trivial_match_on_empty_input() {
    let rules = compile(b"rule dummy { condition: true }").unwrap();
    let mut scanner = Scanner::new(&rules);
    let results = scanner.scan(&[]).unwrap();
    assert_eq!(results.matching_rules(), 1);
    let mut it = results.iter();
    let rule = it.next().unwrap();
    assert_eq!(rule.identifier(), "dummy");
    assert_eq!(rule.namespace(), "");
    assert!(it.next().is_none());
}

#[test]
fn filesize_condition() {
    let rules = compile(b"rule big { condition: filesize > 10 }").unwrap();
    let mut scanner = Scanner::new(&rules);
    let five = [0u8; 5];
    assert_eq!(scanner.scan(&five).unwrap().matching_rules(), 0);
    let eleven = [0u8; 11];
    assert_eq!(scanner.scan(&eleven).unwrap().matching_rules(), 1);
}

#[test]
fn pattern_with_offsets() {
    let rules = compile(b"rule p { strings: $a = \"AB\" condition: $a }").unwrap();
    let mut scanner = Scanner::new(&rules);
    let results = scanner.scan(b"xxABxxAB").unwrap();
    assert_eq!(results.matching_rules(), 1);
    let mut it = results.iter();
    let rule = it.next().unwrap();
    assert_eq!(rule.identifier(), "p");
    assert_eq!(rule.num_patterns(), 1);
    assert_eq!(rule.pattern_identifier(0), "$a");
    let matches = rule.pattern_matches(0);
    assert_eq!(matches.len(), 2);
    assert_eq!(matches[0], Match { offset: 2, length: 2 });
    assert_eq!(matches[1], Match { offset: 6, length: 2 });
}

#[test]
fn metadata_surfacing() {
    let src = b"rule m { meta: author = \"x\" threshold = 3 ok = true condition: true }";
    let rules = compile(src).unwrap();
    let mut scanner = Scanner::new(&rules);
    let results = scanner.scan(&[]).unwrap();
    assert_eq!(results.matching_rules(), 1);
    let mut it = results.iter();
    let rule = it.next().unwrap();
    let meta = rule.metadata();
    assert_eq!(meta.len(), 3);
    assert_eq!(meta[0].0, "author");
    assert_eq!(meta[0].1, MetaValue::Str("x".to_string()));
    assert_eq!(meta[1].0, "threshold");
    assert_eq!(meta[1].1, MetaValue::Int(3));
    assert_eq!(meta[2].0, "ok");
    assert_eq!(meta[2].1, MetaValue::Bool(true));
}

#[test]
fn condition_true_always_matches() {
    let rules = compile(b"rule t { condition: true }").unwrap();
    for data in [&b""[..], &b"a"[..], &b"hello world"[..], &[0u8; 1000][..]] {
        assert_eq!(matching_identifiers(&rules, data), vec!["t".to_string()]);
    }
}

#[test]
fn condition_false_never_matches() {
    let rules = compile(b"rule f { condition: false }").unwrap();
    for data in [&b""[..], &b"a"[..], &b"hello world"[..], &[0u8; 1000][..]] {
        assert_eq!(matching_identifiers(&rules, data).len(), 0);
    }
}

#[test]
fn empty_rule_set_matches_nothing() {
    let rules = compile(b"").unwrap();
    let mut scanner = Scanner::new(&rules);
    let results = scanner.scan(b"anything").unwrap();
    assert_eq!(results.matching_rules(), 0);
    assert!(results.iter().next().is_none());
    assert!(results.iter_non_matches().next().is_none());
}

#[test]
fn empty_input_constant_rules_still_evaluate() {
    let src = b"rule zero { condition: filesize == 0 } rule pos { condition: filesize > 0 }";
    let rules = compile(src).unwrap();
    assert_eq!(matching_identifiers(&rules, &[]), vec!["zero".to_string()]);
    assert_eq!(matching_identifiers(&rules, b"x"), vec!["pos".to_string()]);
}

#[test]
fn matches_and_non_matches_partition_the_rules() {
    let src = b"rule a { condition: true } rule b { condition: false } rule c { condition: true }";
    let rules = compile(src).unwrap();
    let matched = matching_identifiers(&rules, b"data");
    let unmatched = non_matching_identifiers(&rules, b"data");
    assert_eq!(matched, vec!["a".to_string(), "c".to_string()]);
    assert_eq!(unmatched, vec!["b".to_string()]);
    for m in &matched {
        assert!(!unmatched.contains(m));
    }
    assert_eq!(matched.len() + unmatched.len(), 3);
}

#[test]
fn scanning_twice_is_idempotent() {
    let src = b"rule a { strings: $x = \"ab\" condition: $x } rule b { condition: filesize > 3 }";
    let rules = compile(src).unwrap();
    let first = matching_identifiers(&rules, b"zzabzz");
    let second = matching_identifiers(&rules, b"zzabzz");
    assert_eq!(first, second);
    assert_eq!(first, vec!["a".to_string(), "b".to_string()]);
}

#[test]
fn boolean_operators_and_parentheses() {
    let src = b"rule q { strings: $a = \"needle\" condition: not false and (filesize < 3 or $a) }";
    let rules = compile(src).unwrap();
    assert_eq!(matching_identifiers(&rules, b"xy").len(), 1);
    assert_eq!(matching_identifiers(&rules, b"a needle here").len(), 1);
    assert_eq!(matching_identifiers(&rules, b"nothing at all").len(), 0);
}

#[test]
fn comparison_operators() {
    let src = b"rule ge { condition: filesize >= 4 } \
                rule le { condition: filesize <= 4 } \
                rule eq { condition: filesize == 4 } \
                rule ne { condition: filesize != 4 } \
                rule lt { condition: filesize < 4 }";
    let rules = compile(src).unwrap();
    let matched = matching_identifiers(&rules, b"abcd");
    assert_eq!(
        matched,
        vec!["ge".to_string(), "le".to_string(), "eq".to_string()],
    );
    let matched3 = matching_identifiers(&rules, b"abc");
    assert_eq!(
        matched3,
        vec!["le".to_string(), "ne".to_string(), "lt".to_string()],
    );
}

#[test]
fn multiple_patterns_resolve_by_name() {
    let src = b"rule two { strings: $a = \"cat\" $b = \"dog\" condition: $a and $b }";
    let rules = compile(src).unwrap();
    assert_eq!(matching_identifiers(&rules, b"cat and dog").len(), 1);
    assert_eq!(matching_identifiers(&rules, b"cat only").len(), 0);
    assert_eq!(matching_identifiers(&rules, b"dog only").len(), 0);
}

#[test]
fn rule_identifiers_are_dense_indices() {
    let src = b"rule r0 { condition: false } rule r1 { condition: true }";
    let rules = compile(src).unwrap();
    assert_eq!(rules.rules().len(), 2);
    assert_eq!(rules.rules()[0].identifier, "r0");
    assert_eq!(rules.rules()[1].identifier, "r1");
}

#[test]
fn trapping_program_yields_scan_error() {
    // A hand-built artifact whose condition underflows the stack: the scan
    // reports an error and the scanner stays usable.
    let rules = CompiledRules {
        rules: vec![CompiledRule {
            identifier: "broken".to_string(),
            namespace: String::new(),
            metadata: Vec::new(),
            patterns: Vec::new(),
            program: vec![Instr::And],
        }],
        imports: Vec::new(),
    };
    let mut scanner = Scanner::new(&rules);
    assert!(scanner.scan(b"data").is_err());
    assert!(scanner.scan(b"more data").is_err());
}

#[test]
fn syntax_errors_are_reported() {
    assert!(compile(b"rule {").is_err());
    assert!(compile(b"rule a condition: true }").is_err());
    assert!(compile(b"rule a { condition: }").is_err());
    assert!(compile(b"rule a { strings: $x = \"\" condition: $x }").is_err());
    assert!(compile(b"rule a { strings: $x = \"y\" condition: $z }").is_err());
    assert!(compile(b"rule a { meta: k = \"v\" k = 2 condition: true }").is_err());
    assert!(compile(b"rule a { strings: $x = \"y\" $x = \"z\" condition: true }").is_err());
    assert!(compile(b"import \"nope\" rule a { condition: true }").is_err());
    assert!(compile(b"rule a { condition: true").is_err());
}

#[test]
fn lexical_errors_are_reported() {
    // a bare `!` is not a token
    assert!(compile(b"rule a { condition: !true }").is_err());
    // unterminated string literal
    assert!(compile(b"rule a { strings: $x = \"oops condition: $x }").is_err());
    // integer literal past the 64-bit range
    assert!(compile(b"rule a { condition: filesize > 99999999999999999999 }").is_err());
    // largest accepted literal still compiles
    assert!(compile(b"rule a { condition: filesize < 9223372036854775807 }").is_ok());
}

#[test]
fn scanner_state_resets_between_scans() {
    let src = b"rule p { strings: $a = \"AB\" condition: $a }";
    let rules = compile(src).unwrap();
    let mut scanner = Scanner::new(&rules);
    assert_eq!(scanner.scan(b"xxAB").unwrap().matching_rules(), 1);
    assert_eq!(scanner.scan(b"nothing").unwrap().matching_rules(), 0);
    assert_eq!(scanner.scan(b"AB").unwrap().matching_rules(), 1);
}
