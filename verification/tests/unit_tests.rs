use yara_x::bytes::{bytes_eq, copy_bytes, parse_u16_at, parse_u32_at, parse_u64_at, utf8_lossy};
use yara_x::compiler::{gen_condition, Expr, Term};
use yara_x::matcher::{contains_pattern, find_matches, Match};
use yara_x::pool::BStringPool;
use yara_x::values::{array_get, map_get, map_key_eq, MapKey, RuntimeStruct, RuntimeValue};
use yara_x::vm::{eval_program, CmpOp, Instr};

#[test]
fn little_endian_readers() {
    let data = [0x78u8, 0x56, 0x34, 0x12, 0xff, 0x00, 0x00, 0x00];
    assert_eq!(parse_u16_at(&data, 0).unwrap(), 0x5678);
    assert_eq!(parse_u32_at(&data, 0).unwrap(), 0x12345678);
    assert_eq!(parse_u64_at(&data, 0).unwrap(), 0x0000_00ff_1234_5678);
    assert_eq!(parse_u16_at(&data, 1).unwrap(), 0x3456);
    assert!(parse_u16_at(&data, 7).is_err());
    assert!(parse_u32_at(&data, 5).is_err());
    assert!(parse_u64_at(&data, 1).is_err());
}

#[test]
fn byte_helpers() {
    assert!(bytes_eq(b"abc", b"abc"));
    assert!(!bytes_eq(b"abc", b"abd"));
    assert!(!bytes_eq(b"abc", b"ab"));
    assert!(bytes_eq(b"", b""));
    assert_eq!(copy_bytes(b"xyz"), b"xyz".to_vec());
    assert_eq!(utf8_lossy(b"hello"), "hello");
    assert_eq!(utf8_lossy(b""), "");
}

#[test]
fn string_pool_interns_and_deduplicates() {
    let mut pool = BStringPool::new();
    assert_eq!(pool.len(), 0);
    let a = pool.get_or_intern(b"alpha");
    let b = pool.get_or_intern(b"beta");
    let a2 = pool.get_or_intern(b"alpha");
    assert_eq!(a, a2);
    assert_ne!(a, b);
    assert_eq!(pool.len(), 2);
    assert_eq!(pool.get(a), &b"alpha".to_vec());
    assert_eq!(pool.get(b), &b"beta".to_vec());
}

#[test]
fn runtime_struct_insert_and_lookup() {
    let mut s = RuntimeStruct::new();
    s.insert("x".to_string(), RuntimeValue::Int(1));
    s.insert("y".to_string(), RuntimeValue::Bool(true));
    assert_eq!(s.len(), 2);
    assert_eq!(s.get("x"), Some(&RuntimeValue::Int(1)));
    assert_eq!(s.get("y"), Some(&RuntimeValue::Bool(true)));
    assert_eq!(s.get("z"), None);
    // overwriting keeps the position
    s.insert("x".to_string(), RuntimeValue::Int(7));
    assert_eq!(s.len(), 2);
    assert_eq!(s.get("x"), Some(&RuntimeValue::Int(7)));
    assert_eq!(s.field_at(0).0, "x");
}

#[test]
fn array_and_map_lookup() {
    let items = vec![RuntimeValue::Int(10), RuntimeValue::Int(20)];
    assert_eq!(array_get(&items, 1), Some(&RuntimeValue::Int(20)));
    assert_eq!(array_get(&items, 2), None);
    let entries = vec![
        (MapKey::Int(1), RuntimeValue::Bool(true)),
        (MapKey::Str(b"k".to_vec()), RuntimeValue::Int(9)),
    ];
    assert_eq!(map_get(&entries, &MapKey::Int(1)), Some(&RuntimeValue::Bool(true)));
    assert_eq!(map_get(&entries, &MapKey::Str(b"k".to_vec())), Some(&RuntimeValue::Int(9)));
    assert_eq!(map_get(&entries, &MapKey::Int(2)), None);
    assert!(map_key_eq(&MapKey::Int(3), &MapKey::Int(3)));
    assert!(!map_key_eq(&MapKey::Int(3), &MapKey::Str(b"3".to_vec())));
}

#[test]
fn pattern_search_finds_all_occurrences() {
    let ms = find_matches(b"xxABxxAB", b"AB");
    assert_eq!(ms, vec![Match { offset: 2, length: 2 }, Match { offset: 6, length: 2 }]);
    // overlapping occurrences
    let overlapping = find_matches(b"AAA", b"AA");
    assert_eq!(
        overlapping,
        vec![Match { offset: 0, length: 2 }, Match { offset: 1, length: 2 }],
    );
    assert_eq!(find_matches(b"short", b"longer than data").len(), 0);
    assert!(contains_pattern(b"haystack", b"stack"));
    assert!(!contains_pattern(b"haystack", b"needle"));
}

#[test]
fn vm_evaluates_comparisons() {
    let prog = vec![Instr::PushInt(5), Instr::PushInt(3), Instr::Cmp(CmpOp::Gt)];
    assert_eq!(eval_program(&prog, 0, &Vec::new()), Some(true));
    let prog2 = vec![Instr::PushFilesize, Instr::PushInt(10), Instr::Cmp(CmpOp::Le)];
    assert_eq!(eval_program(&prog2, 10, &Vec::new()), Some(true));
    assert_eq!(eval_program(&prog2, 11, &Vec::new()), Some(false));
}

#[test]
fn vm_pattern_flags_and_logic() {
    let found = vec![true, false];
    let prog = vec![Instr::PushPattern(0), Instr::PushPattern(1), Instr::Or];
    assert_eq!(eval_program(&prog, 0, &found), Some(true));
    let prog2 = vec![Instr::PushPattern(0), Instr::PushPattern(1), Instr::And];
    assert_eq!(eval_program(&prog2, 0, &found), Some(false));
    let prog3 = vec![Instr::PushPattern(1), Instr::Not];
    assert_eq!(eval_program(&prog3, 0, &found), Some(true));
}

#[test]
fn vm_traps_on_malformed_programs() {
    // stack underflow
    assert_eq!(eval_program(&vec![Instr::And], 0, &Vec::new()), None);
    // pattern index out of range
    assert_eq!(eval_program(&vec![Instr::PushPattern(0)], 0, &Vec::new()), None);
    // leftover operands
    let prog = vec![Instr::PushInt(1), Instr::PushInt(2)];
    assert_eq!(eval_program(&prog, 0, &Vec::new()), None);
    // empty program
    assert_eq!(eval_program(&Vec::new(), 0, &Vec::new()), None);
}

#[test]
fn condition_codegen_produces_expected_programs() {
    assert_eq!(gen_condition(&Expr::True, 0), vec![Instr::PushInt(1)]);
    assert_eq!(gen_condition(&Expr::False, 0), vec![Instr::PushInt(0)]);
    let cmp = Expr::Cmp(CmpOp::Gt, Term::Filesize, Term::Int(10));
    assert_eq!(
        gen_condition(&cmp, 0),
        vec![Instr::PushFilesize, Instr::PushInt(10), Instr::Cmp(CmpOp::Gt)],
    );
    let e = Expr::And(Box::new(Expr::True), Box::new(Expr::Not(Box::new(Expr::Pat(0)))));
    let prog = gen_condition(&e, 1);
    assert_eq!(
        prog,
        vec![Instr::PushInt(1), Instr::PushPattern(0), Instr::Not, Instr::And],
    );
    // the generated code never traps and computes the expression
    assert_eq!(eval_program(&prog, 0, &vec![false]), Some(true));
    assert_eq!(eval_program(&prog, 0, &vec![true]), Some(false));
}
