//! Serialization of the compiled-rules artifact.
//!
//! The persisted form is version-tagged and little-endian throughout. The
//! spec decoders below define the format; `serialize` proves that its
//! output decodes to the artifact it was given, and `deserialize` proves
//! that it accepts exactly the byte strings the decoders accept — which
//! together give the round trip.

use vstd::prelude::*;
use crate::bytes::{copy_bytes, spec_u32_at, spec_u64_at, parse_u32_at, parse_u64_at, utf8_exact};
use crate::rules::{CompiledRule, CompiledRules, CompiledRulesV, CompiledRuleV, MetaValue,
    MetaValueV, Pattern, PatternV};
use crate::vm::{CmpOp, Instr};
use vstd::utf8::{valid_utf8, decode_utf8, encode_utf8, encode_utf8_valid_utf8,
    encode_utf8_decode_utf8};

verus! {

/// Serializing or deserializing a compiled-rules artifact failed.
#[derive(Debug, Clone, Copy, PartialEq, Eq, Structural)]
pub struct SerializationError;

/// The version tag the persisted form starts with.
pub const FORMAT_VERSION: u32 = 1;

/// Decodes a little-endian `u32`.
pub open spec fn dec_u32(data: Seq<u8>, pos: int) -> Option<(u32, int)> {
    if 0 <= pos && pos + 4 <= data.len() {
        Some((spec_u32_at(data, pos), pos + 4))
    } else {
        None
    }
}

/// Decodes a little-endian `u64`.
pub open spec fn dec_u64(data: Seq<u8>, pos: int) -> Option<(u64, int)> {
    if 0 <= pos && pos + 8 <= data.len() {
        Some((spec_u64_at(data, pos), pos + 8))
    } else {
        None
    }
}

/// Decodes an `i64`, stored as its two's-complement bits.
pub open spec fn dec_i64(data: Seq<u8>, pos: int) -> Option<(i64, int)> {
    match dec_u64(data, pos) {
        Some((v, p)) => Some((v as i64, p)),
        None => None,
    }
}

/// Decodes a length-prefixed byte string.
pub open spec fn dec_bytes(data: Seq<u8>, pos: int) -> Option<(Seq<u8>, int)> {
    match dec_u32(data, pos) {
        Some((len, p)) => if p + len <= data.len() {
            Some((data.subrange(p, p + len), p + len))
        } else {
            None
        },
        None => None,
    }
}

/// Decodes a length-prefixed UTF-8 string.
pub open spec fn dec_string(data: Seq<u8>, pos: int) -> Option<(Seq<char>, int)> {
    match dec_bytes(data, pos) {
        Some((b, p)) => if valid_utf8(b) {
            Some((decode_utf8(b), p))
        } else {
            None
        },
        None => None,
    }
}

/// Decodes a comparison operator from its tag byte.
pub open spec fn dec_cmp_op(b: u8) -> Option<CmpOp> {
    if b == 0 {
        Some(CmpOp::Gt)
    } else if b == 1 {
        Some(CmpOp::Lt)
    } else if b == 2 {
        Some(CmpOp::Ge)
    } else if b == 3 {
        Some(CmpOp::Le)
    } else if b == 4 {
        Some(CmpOp::Eq)
    } else if b == 5 {
        Some(CmpOp::Ne)
    } else {
        None
    }
}

/// Decodes one condition instruction: a tag byte plus its operand.
pub open spec fn dec_instr(data: Seq<u8>, pos: int) -> Option<(Instr, int)> {
    if pos < 0 || pos >= data.len() {
        None
    } else {
        let tag = data[pos];
        if tag == 1 {
            match dec_i64(data, pos + 1) {
                Some((v, p)) => Some((Instr::PushInt(v), p)),
                None => None,
            }
        } else if tag == 2 {
            Some((Instr::PushFilesize, pos + 1))
        } else if tag == 3 {
            match dec_u32(data, pos + 1) {
                Some((k, p)) => Some((Instr::PushPattern(k), p)),
                None => None,
            }
        } else if tag == 4 {
            if pos + 1 < data.len() {
                match dec_cmp_op(data[pos + 1]) {
                    Some(op) => Some((Instr::Cmp(op), pos + 2)),
                    None => None,
                }
            } else {
                None
            }
        } else if tag == 5 {
            Some((Instr::And, pos + 1))
        } else if tag == 6 {
            Some((Instr::Or, pos + 1))
        } else if tag == 7 {
            Some((Instr::Not, pos + 1))
        } else {
            None
        }
    }
}

/// Decodes one metadata value: a tag byte plus its payload.
pub open spec fn dec_meta_value(data: Seq<u8>, pos: int) -> Option<(MetaValueV, int)> {
    if pos < 0 || pos >= data.len() {
        None
    } else {
        let tag = data[pos];
        if tag == 0 {
            match dec_i64(data, pos + 1) {
                Some((v, p)) => Some((MetaValueV::Int(v), p)),
                None => None,
            }
        } else if tag == 1 {
            match dec_u64(data, pos + 1) {
                Some((v, p)) => Some((MetaValueV::FloatBits(v), p)),
                None => None,
            }
        } else if tag == 2 {
            if pos + 1 < data.len() && (data[pos + 1] == 0 || data[pos + 1] == 1) {
                Some((MetaValueV::Bool(data[pos + 1] == 1), pos + 2))
            } else {
                None
            }
        } else if tag == 3 {
            match dec_string(data, pos + 1) {
                Some((s, p)) => Some((MetaValueV::Str(s), p)),
                None => None,
            }
        } else if tag == 4 {
            match dec_bytes(data, pos + 1) {
                Some((b, p)) => Some((MetaValueV::Bytes(b), p)),
                None => None,
            }
        } else {
            None
        }
    }
}

/// Decodes one metadata entry: key, then value.
pub open spec fn dec_meta_entry(data: Seq<u8>, pos: int) -> Option<((Seq<char>, MetaValueV), int)> {
    match dec_string(data, pos) {
        Some((k, p)) => match dec_meta_value(data, p) {
            Some((v, p2)) => Some(((k, v), p2)),
            None => None,
        },
        None => None,
    }
}

/// Decodes one pattern: identifier, then byte string.
pub open spec fn dec_pattern(data: Seq<u8>, pos: int) -> Option<(PatternV, int)> {
    match dec_string(data, pos) {
        Some((ident, p)) => match dec_bytes(data, p) {
            Some((b, p2)) => Some((PatternV { identifier: ident, bytes: b }, p2)),
            None => None,
        },
        None => None,
    }
}

/// Decodes `count` consecutive items with the given item decoder.
pub open spec fn dec_list<T>(
    data: Seq<u8>,
    pos: int,
    count: int,
    f: spec_fn(Seq<u8>, int) -> Option<(T, int)>,
) -> Option<(Seq<T>, int)>
    decreases count,
{
    if count <= 0 {
        Some((Seq::empty(), pos))
    } else {
        match f(data, pos) {
            Some((v, p)) => match dec_list(data, p, count - 1, f) {
                Some((vs, p2)) => Some((Seq::empty().push(v) + vs, p2)),
                None => None,
            },
            None => None,
        }
    }
}

/// A list of `count + 1` items is the list of `count` items followed by
/// one more.
pub proof fn lemma_dec_list_snoc<T>(
    data: Seq<u8>,
    pos: int,
    count: int,
    f: spec_fn(Seq<u8>, int) -> Option<(T, int)>,
)
    requires
        count >= 0,
    ensures
        dec_list(data, pos, count + 1, f) == match dec_list(data, pos, count, f) {
            Some((vs, p)) => match f(data, p) {
                Some((v, p2)) => Some((vs.push(v), p2)),
                None => None,
            },
            None => None,
        },
    decreases count,
{
    if count == 0 {
        match f(data, pos) {
            Some((v, p)) => {
                assert(dec_list(data, p, 0, f) == Some((Seq::<T>::empty(), p)));
                assert(Seq::<T>::empty().push(v) + Seq::<T>::empty() =~= Seq::<T>::empty().push(
                    v,
                ));
            },
            None => {},
        }
    } else {
        match f(data, pos) {
            Some((v, p)) => {
                lemma_dec_list_snoc(data, p, count - 1, f);
                match dec_list(data, p, count - 1, f) {
                    Some((vs, p2)) => {
                        match f(data, p2) {
                            Some((v2, p3)) => {
                                assert(Seq::empty().push(v) + vs.push(v2) =~= (Seq::empty().push(
                                    v,
                                ) + vs).push(v2));
                            },
                            None => {},
                        }
                    },
                    None => {},
                }
            },
            None => {},
        }
    }
}

/// The item decoder for instructions.
pub open spec fn instr_dec() -> spec_fn(Seq<u8>, int) -> Option<(Instr, int)> {
    |d: Seq<u8>, p: int| dec_instr(d, p)
}

/// The item decoder for metadata entries.
pub open spec fn meta_dec() -> spec_fn(Seq<u8>, int) -> Option<((Seq<char>, MetaValueV), int)> {
    |d: Seq<u8>, p: int| dec_meta_entry(d, p)
}

/// The item decoder for patterns.
pub open spec fn pattern_dec() -> spec_fn(Seq<u8>, int) -> Option<(PatternV, int)> {
    |d: Seq<u8>, p: int| dec_pattern(d, p)
}

/// The item decoder for strings.
pub open spec fn string_dec() -> spec_fn(Seq<u8>, int) -> Option<(Seq<char>, int)> {
    |d: Seq<u8>, p: int| dec_string(d, p)
}

/// Decodes one rule: identifier, namespace, metadata, patterns, program.
pub open spec fn dec_rule(data: Seq<u8>, pos: int) -> Option<(CompiledRuleV, int)> {
    match dec_string(data, pos) {
        Some((ident, p1)) => match dec_string(data, p1) {
            Some((ns, p2)) => match dec_u32(data, p2) {
                Some((nmeta, p3)) => match dec_list(data, p3, nmeta as int, meta_dec()) {
                    Some((meta, p4)) => match dec_u32(data, p4) {
                        Some((npat, p5)) => match dec_list(data, p5, npat as int, pattern_dec()) {
                            Some((pats, p6)) => match dec_u32(data, p6) {
                                Some((nprog, p7)) => match dec_list(
                                    data,
                                    p7,
                                    nprog as int,
                                    instr_dec(),
                                ) {
                                    Some((prog, p8)) => Some(
                                        (
                                            CompiledRuleV {
                                                identifier: ident,
                                                namespace: ns,
                                                metadata: meta,
                                                patterns: pats,
                                                program: prog,
                                            },
                                            p8,
                                        ),
                                    ),
                                    None => None,
                                },
                                None => None,
                            },
                            None => None,
                        },
                        None => None,
                    },
                    None => None,
                },
                None => None,
            },
            None => None,
        },
        None => None,
    }
}

/// The item decoder for rules.
pub open spec fn rule_dec() -> spec_fn(Seq<u8>, int) -> Option<(CompiledRuleV, int)> {
    |d: Seq<u8>, p: int| dec_rule(d, p)
}

/// Decodes a whole artifact: version tag, rules, imports, nothing left
/// over. This is the definition of the persisted format.
pub open spec fn dec_artifact(data: Seq<u8>) -> Option<CompiledRulesV> {
    match dec_u32(data, 0) {
        Some((ver, p0)) => if ver != FORMAT_VERSION {
            None
        } else {
            match dec_u32(data, p0) {
                Some((nrules, p1)) => match dec_list(data, p1, nrules as int, rule_dec()) {
                    Some((rules, p2)) => match dec_u32(data, p2) {
                        Some((nimp, p3)) => match dec_list(data, p3, nimp as int, string_dec()) {
                            Some((imports, p4)) => if p4 == data.len() {
                                Some(CompiledRulesV { rules, imports })
                            } else {
                                None
                            },
                            None => None,
                        },
                        None => None,
                    },
                    None => None,
                },
                None => None,
            }
        },
        None => None,
    }
}

/// A string whose UTF-8 form fits a 32-bit length prefix.
pub open spec fn str_fits(s: Seq<char>) -> bool {
    encode_utf8(s).len() <= u32::MAX
}

/// A metadata value whose payload fits its length prefix.
pub open spec fn meta_value_fits(v: MetaValueV) -> bool {
    match v {
        MetaValueV::Str(s) => str_fits(s),
        MetaValueV::Bytes(b) => b.len() <= u32::MAX,
        _ => true,
    }
}

/// A rule whose parts all fit their 32-bit length prefixes.
pub open spec fn rule_fits(r: CompiledRuleV) -> bool {
    &&& str_fits(r.identifier)
    &&& str_fits(r.namespace)
    &&& r.metadata.len() <= u32::MAX
    &&& forall|i: int|
        0 <= i < r.metadata.len() ==> str_fits((#[trigger] r.metadata[i]).0) && meta_value_fits(
            r.metadata[i].1,
        )
    &&& r.patterns.len() <= u32::MAX
    &&& forall|k: int|
        0 <= k < r.patterns.len() ==> str_fits((#[trigger] r.patterns[k]).identifier) && (
        r.patterns[k]).bytes.len() <= u32::MAX
    &&& r.program.len() <= u32::MAX
}

/// An artifact whose parts all fit their 32-bit length prefixes: exactly
/// the artifacts `serialize` accepts.
pub open spec fn artifact_fits(m: CompiledRulesV) -> bool {
    &&& m.rules.len() <= u32::MAX
    &&& forall|i: int| 0 <= i < m.rules.len() ==> rule_fits(#[trigger] m.rules[i])
    &&& m.imports.len() <= u32::MAX
    &&& forall|i: int| 0 <= i < m.imports.len() ==> str_fits(#[trigger] m.imports[i])
}

/// A prefix of a prefix is a prefix.
proof fn lemma_prefix_trans(a: Seq<u8>, b: Seq<u8>, c: Seq<u8>)
    requires
        a.len() <= b.len() <= c.len(),
        b.subrange(0, a.len() as int) == a,
        c.subrange(0, b.len() as int) == b,
    ensures
        c.subrange(0, a.len() as int) == a,
{
    assert forall|i: int| 0 <= i < a.len() implies c.subrange(0, a.len() as int)[i] == a[i] by {
        assert(c.subrange(0, b.len() as int)[i] == b[i]);
        assert(b.subrange(0, a.len() as int)[i] == a[i]);
    }
    assert(c.subrange(0, a.len() as int) =~= a);
}

/// Appends the little-endian bytes of a `u32`.
fn push_u32(out: &mut Vec<u8>, v: u32)
    ensures
        final(out)@.len() == old(out)@.len() + 4,
        final(out)@.subrange(0, old(out)@.len() as int) == old(out)@,
        forall|tail: Seq<u8>|
            dec_u32(#[trigger] (final(out)@ + tail), old(out)@.len() as int) == Some(
                (v, final(out)@.len() as int),
            ),
{
    let ghost base = out@;
    let b0 = (v % 256) as u8;
    let b1 = ((v / 256) % 256) as u8;
    let b2 = ((v / 65536) % 256) as u8;
    let b3 = ((v / 16777216) % 256) as u8;
    out.push(b0);
    out.push(b1);
    out.push(b2);
    out.push(b3);
    proof {
        assert(out@.subrange(0, base.len() as int) =~= base);
        assert((v % 256) + ((v / 256) % 256) * 0x100 + ((v / 65536) % 256) * 0x10000 + ((v
            / 16777216) % 256) * 0x1000000 == v) by (bit_vector);
        assert forall|tail: Seq<u8>|
            dec_u32(#[trigger] (out@ + tail), base.len() as int) == Some(
                (v, out@.len() as int),
            ) by {
            let data = out@ + tail;
            assert(data[base.len() as int] == b0);
            assert(data[base.len() as int + 1] == b1);
            assert(data[base.len() as int + 2] == b2);
            assert(data[base.len() as int + 3] == b3);
        }
    }
}

/// Appends the little-endian bytes of a `u64`: low word, then high word.
fn push_u64(out: &mut Vec<u8>, v: u64)
    ensures
        final(out)@.len() == old(out)@.len() + 8,
        final(out)@.subrange(0, old(out)@.len() as int) == old(out)@,
        forall|tail: Seq<u8>|
            dec_u64(#[trigger] (final(out)@ + tail), old(out)@.len() as int) == Some(
                (v, final(out)@.len() as int),
            ),
{
    let ghost base = out@;
    let lo = (v % 0x100000000) as u32;
    let hi = (v / 0x100000000) as u32;
    push_u32(out, lo);
    let ghost m1 = out@;
    push_u32(out, hi);
    proof {
        lemma_prefix_trans(base, m1, out@);
        assert(lo as u64 + (hi as u64) * 0x100000000 == v) by (bit_vector)
            requires
                lo == (v % 0x100000000) as u32,
                hi == (v / 0x100000000) as u32,
        ;
        assert forall|tail: Seq<u8>|
            dec_u64(#[trigger] (out@ + tail), base.len() as int) == Some(
                (v, out@.len() as int),
            ) by {
            let data = out@ + tail;
            let added2 = out@.skip(m1.len() as int);
            assert(data =~= m1 + (added2 + tail));
            assert(dec_u32(m1 + (added2 + tail), base.len() as int) == Some(
                (lo, m1.len() as int),
            ));
            assert(dec_u32(data, m1.len() as int) == Some((hi, out@.len() as int)));
            assert(spec_u32_at(data, base.len() as int) == lo);
            assert(spec_u32_at(data, base.len() as int + 4) == hi);
        }
    }
}

/// Appends an `i64` as its two's-complement bits.
fn push_i64(out: &mut Vec<u8>, v: i64)
    ensures
        final(out)@.len() == old(out)@.len() + 8,
        final(out)@.subrange(0, old(out)@.len() as int) == old(out)@,
        forall|tail: Seq<u8>|
            dec_i64(#[trigger] (final(out)@ + tail), old(out)@.len() as int) == Some(
                (v, final(out)@.len() as int),
            ),
{
    push_u64(out, v as u64);
    proof {
        assert(((v as u64) as i64) == v) by (bit_vector);
    }
}

/// Appends a length-prefixed byte string.
fn ser_bytes(out: &mut Vec<u8>, b: &[u8])
    requires
        b@.len() <= u32::MAX,
    ensures
        final(out)@.len() >= old(out)@.len() + 4,
        final(out)@.subrange(0, old(out)@.len() as int) == old(out)@,
        forall|tail: Seq<u8>|
            dec_bytes(#[trigger] (final(out)@ + tail), old(out)@.len() as int) == Some(
                (b@, final(out)@.len() as int),
            ),
{
    let ghost base = out@;
    push_u32(out, b.len() as u32);
    let ghost m1 = out@;
    let mut payload = copy_bytes(b);
    out.append(&mut payload);
    proof {
        assert(out@.subrange(0, m1.len() as int) =~= m1);
        lemma_prefix_trans(base, m1, out@);
        assert forall|tail: Seq<u8>|
            dec_bytes(#[trigger] (out@ + tail), base.len() as int) == Some(
                (b@, out@.len() as int),
            ) by {
            let data = out@ + tail;
            let added2 = out@.skip(m1.len() as int);
            assert(data =~= m1 + (added2 + tail));
            assert(dec_u32(m1 + (added2 + tail), base.len() as int) == Some(
                (b@.len() as u32, m1.len() as int),
            ));
            assert(data.subrange(m1.len() as int, m1.len() + b@.len() as int) =~= b@);
        }
    }
}

/// Appends a length-prefixed UTF-8 string.
fn ser_string(out: &mut Vec<u8>, s: &String)
    requires
        str_fits(s@),
    ensures
        final(out)@.len() >= old(out)@.len() + 4,
        final(out)@.subrange(0, old(out)@.len() as int) == old(out)@,
        forall|tail: Seq<u8>|
            dec_string(#[trigger] (final(out)@ + tail), old(out)@.len() as int) == Some(
                (s@, final(out)@.len() as int),
            ),
{
    let bytes = s.as_str().as_bytes();
    proof {
        encode_utf8_valid_utf8(s@);
        encode_utf8_decode_utf8(s@);
    }
    ser_bytes(out, bytes);
}

/// Appends one instruction: its tag byte plus its operand.
#[verifier::rlimit(80)]
fn ser_instr(out: &mut Vec<u8>, i: &Instr)
    ensures
        final(out)@.len() > old(out)@.len(),
        final(out)@.subrange(0, old(out)@.len() as int) == old(out)@,
        forall|tail: Seq<u8>|
            dec_instr(#[trigger] (final(out)@ + tail), old(out)@.len() as int) == Some(
                (*i, final(out)@.len() as int),
            ),
{
    let ghost base = out@;
    match i {
        Instr::PushInt(v) => {
            out.push(1u8);
            let ghost m1 = out@;
            push_i64(out, *v);
            proof {
                assert(m1.subrange(0, base.len() as int) =~= base);
                lemma_prefix_trans(base, m1, out@);
                assert forall|tail: Seq<u8>|
                    dec_instr(#[trigger] (out@ + tail), base.len() as int) == Some(
                        (*i, out@.len() as int),
                    ) by {
                    let data = out@ + tail;
                    assert(out@.subrange(0, m1.len() as int) == m1);
                    assert(out@.subrange(0, m1.len() as int)[base.len() as int] == m1[base.len() as int]);
                    assert(out@[base.len() as int] == m1[base.len() as int]);
                    assert(data[base.len() as int] == 1u8);
                    assert(dec_i64(data, base.len() as int + 1) == Some((*v, out@.len() as int)));
                }
            }
        },
        Instr::PushFilesize => {
            out.push(2u8);
            proof {
                assert(out@.subrange(0, base.len() as int) =~= base);
                assert forall|tail: Seq<u8>|
                    dec_instr(#[trigger] (out@ + tail), base.len() as int) == Some(
                        (*i, out@.len() as int),
                    ) by {
                    let data = out@ + tail;
                    assert(data[base.len() as int] == 2u8);
                }
            }
        },
        Instr::PushPattern(k) => {
            out.push(3u8);
            let ghost m1 = out@;
            push_u32(out, *k);
            proof {
                assert(m1.subrange(0, base.len() as int) =~= base);
                lemma_prefix_trans(base, m1, out@);
                assert forall|tail: Seq<u8>|
                    dec_instr(#[trigger] (out@ + tail), base.len() as int) == Some(
                        (*i, out@.len() as int),
                    ) by {
                    let data = out@ + tail;
                    assert(out@.subrange(0, m1.len() as int) == m1);
                    assert(out@.subrange(0, m1.len() as int)[base.len() as int] == m1[base.len() as int]);
                    assert(out@[base.len() as int] == m1[base.len() as int]);
                    assert(data[base.len() as int] == 3u8);
                    assert(dec_u32(data, base.len() as int + 1) == Some((*k, out@.len() as int)));
                }
            }
        },
        Instr::Cmp(op) => {
            out.push(4u8);
            let tag = match op {
                CmpOp::Gt => 0u8,
                CmpOp::Lt => 1u8,
                CmpOp::Ge => 2u8,
                CmpOp::Le => 3u8,
                CmpOp::Eq => 4u8,
                CmpOp::Ne => 5u8,
            };
            out.push(tag);
            proof {
                assert(out@.subrange(0, base.len() as int) =~= base);
                assert forall|tail: Seq<u8>|
                    dec_instr(#[trigger] (out@ + tail), base.len() as int) == Some(
                        (*i, out@.len() as int),
                    ) by {
                    let data = out@ + tail;
                    assert(data[base.len() as int] == 4u8);
                    assert(data[base.len() as int + 1] == tag);
                    assert(dec_cmp_op(tag) == Some(*op));
                }
            }
        },
        Instr::And => {
            out.push(5u8);
            proof {
                assert(out@.subrange(0, base.len() as int) =~= base);
                assert forall|tail: Seq<u8>|
                    dec_instr(#[trigger] (out@ + tail), base.len() as int) == Some(
                        (*i, out@.len() as int),
                    ) by {
                    let data = out@ + tail;
                    assert(data[base.len() as int] == 5u8);
                }
            }
        },
        Instr::Or => {
            out.push(6u8);
            proof {
                assert(out@.subrange(0, base.len() as int) =~= base);
                assert forall|tail: Seq<u8>|
                    dec_instr(#[trigger] (out@ + tail), base.len() as int) == Some(
                        (*i, out@.len() as int),
                    ) by {
                    let data = out@ + tail;
                    assert(data[base.len() as int] == 6u8);
                }
            }
        },
        Instr::Not => {
            out.push(7u8);
            proof {
                assert(out@.subrange(0, base.len() as int) =~= base);
                assert forall|tail: Seq<u8>|
                    dec_instr(#[trigger] (out@ + tail), base.len() as int) == Some(
                        (*i, out@.len() as int),
                    ) by {
                    let data = out@ + tail;
                    assert(data[base.len() as int] == 7u8);
                }
            }
        },
    }
}

/// Appends one metadata value: its tag byte plus its payload.
#[verifier::rlimit(80)]
fn ser_meta_value(out: &mut Vec<u8>, v: &MetaValue)
    requires
        meta_value_fits(v@),
    ensures
        final(out)@.len() > old(out)@.len(),
        final(out)@.subrange(0, old(out)@.len() as int) == old(out)@,
        forall|tail: Seq<u8>|
            dec_meta_value(#[trigger] (final(out)@ + tail), old(out)@.len() as int) == Some(
                (v@, final(out)@.len() as int),
            ),
{
    let ghost base = out@;
    match v {
        MetaValue::Int(x) => {
            out.push(0u8);
            let ghost m1 = out@;
            push_i64(out, *x);
            proof {
                assert(m1.subrange(0, base.len() as int) =~= base);
                lemma_prefix_trans(base, m1, out@);
                assert forall|tail: Seq<u8>|
                    dec_meta_value(#[trigger] (out@ + tail), base.len() as int) == Some(
                        (v@, out@.len() as int),
                    ) by {
                    let data = out@ + tail;
                    assert(out@.subrange(0, m1.len() as int) == m1);
                    assert(out@.subrange(0, m1.len() as int)[base.len() as int] == m1[base.len() as int]);
                    assert(out@[base.len() as int] == m1[base.len() as int]);
                    assert(data[base.len() as int] == 0u8);
                    assert(dec_i64(data, base.len() as int + 1) == Some((*x, out@.len() as int)));
                }
            }
        },
        MetaValue::FloatBits(x) => {
            out.push(1u8);
            let ghost m1 = out@;
            push_u64(out, *x);
            proof {
                assert(m1.subrange(0, base.len() as int) =~= base);
                lemma_prefix_trans(base, m1, out@);
                assert forall|tail: Seq<u8>|
                    dec_meta_value(#[trigger] (out@ + tail), base.len() as int) == Some(
                        (v@, out@.len() as int),
                    ) by {
                    let data = out@ + tail;
                    assert(out@.subrange(0, m1.len() as int) == m1);
                    assert(out@.subrange(0, m1.len() as int)[base.len() as int] == m1[base.len() as int]);
                    assert(out@[base.len() as int] == m1[base.len() as int]);
                    assert(data[base.len() as int] == 1u8);
                    assert(dec_u64(data, base.len() as int + 1) == Some((*x, out@.len() as int)));
                }
            }
        },
        MetaValue::Bool(b) => {
            out.push(2u8);
            out.push(
                if *b {
                    1u8
                } else {
                    0u8
                },
            );
            proof {
                assert(out@.subrange(0, base.len() as int) =~= base);
                assert forall|tail: Seq<u8>|
                    dec_meta_value(#[trigger] (out@ + tail), base.len() as int) == Some(
                        (v@, out@.len() as int),
                    ) by {
                    let data = out@ + tail;
                    assert(data[base.len() as int] == 2u8);
                    assert(data[base.len() as int + 1] == if *b {
                        1u8
                    } else {
                        0u8
                    });
                }
            }
        },
        MetaValue::Str(s) => {
            out.push(3u8);
            let ghost m1 = out@;
            ser_string(out, s);
            proof {
                assert(m1.subrange(0, base.len() as int) =~= base);
                lemma_prefix_trans(base, m1, out@);
                assert forall|tail: Seq<u8>|
                    dec_meta_value(#[trigger] (out@ + tail), base.len() as int) == Some(
                        (v@, out@.len() as int),
                    ) by {
                    let data = out@ + tail;
                    assert(out@.subrange(0, m1.len() as int) == m1);
                    assert(out@.subrange(0, m1.len() as int)[base.len() as int] == m1[base.len() as int]);
                    assert(out@[base.len() as int] == m1[base.len() as int]);
                    assert(data[base.len() as int] == 3u8);
                    assert(dec_string(data, base.len() as int + 1) == Some((s@, out@.len() as int)));
                }
            }
        },
        MetaValue::Bytes(b) => {
            out.push(4u8);
            let ghost m1 = out@;
            ser_bytes(out, b.as_slice());
            proof {
                assert(m1.subrange(0, base.len() as int) =~= base);
                lemma_prefix_trans(base, m1, out@);
                assert forall|tail: Seq<u8>|
                    dec_meta_value(#[trigger] (out@ + tail), base.len() as int) == Some(
                        (v@, out@.len() as int),
                    ) by {
                    let data = out@ + tail;
                    assert(out@.subrange(0, m1.len() as int) == m1);
                    assert(out@.subrange(0, m1.len() as int)[base.len() as int] == m1[base.len() as int]);
                    assert(out@[base.len() as int] == m1[base.len() as int]);
                    assert(data[base.len() as int] == 4u8);
                    assert(dec_bytes(data, base.len() as int + 1) == Some((b@, out@.len() as int)));
                }
            }
        },
    }
}

/// Appends one metadata entry: key, then value.
fn ser_meta_entry(out: &mut Vec<u8>, key: &String, val: &MetaValue)
    requires
        str_fits(key@),
        meta_value_fits(val@),
    ensures
        final(out)@.len() > old(out)@.len(),
        final(out)@.subrange(0, old(out)@.len() as int) == old(out)@,
        forall|tail: Seq<u8>|
            dec_meta_entry(#[trigger] (final(out)@ + tail), old(out)@.len() as int) == Some(
                ((key@, val@), final(out)@.len() as int),
            ),
{
    let ghost base = out@;
    ser_string(out, key);
    let ghost m1 = out@;
    ser_meta_value(out, val);
    proof {
        lemma_prefix_trans(base, m1, out@);
        assert forall|tail: Seq<u8>|
            dec_meta_entry(#[trigger] (out@ + tail), base.len() as int) == Some(
                ((key@, val@), out@.len() as int),
            ) by {
            let data = out@ + tail;
            let added2 = out@.skip(m1.len() as int);
            assert(data =~= m1 + (added2 + tail));
            assert(dec_string(m1 + (added2 + tail), base.len() as int) == Some(
                (key@, m1.len() as int),
            ));
            assert(dec_meta_value(data, m1.len() as int) == Some((val@, out@.len() as int)));
        }
    }
}

/// Appends one pattern: identifier, then byte string.
fn ser_pattern(out: &mut Vec<u8>, p: &Pattern)
    requires
        str_fits(p@.identifier),
        p@.bytes.len() <= u32::MAX,
    ensures
        final(out)@.len() > old(out)@.len(),
        final(out)@.subrange(0, old(out)@.len() as int) == old(out)@,
        forall|tail: Seq<u8>|
            dec_pattern(#[trigger] (final(out)@ + tail), old(out)@.len() as int) == Some(
                (p@, final(out)@.len() as int),
            ),
{
    let ghost base = out@;
    ser_string(out, &p.identifier);
    let ghost m1 = out@;
    ser_bytes(out, p.bytes.as_slice());
    proof {
        lemma_prefix_trans(base, m1, out@);
        assert forall|tail: Seq<u8>|
            dec_pattern(#[trigger] (out@ + tail), base.len() as int) == Some(
                (p@, out@.len() as int),
            ) by {
            let data = out@ + tail;
            let added2 = out@.skip(m1.len() as int);
            assert(data =~= m1 + (added2 + tail));
            assert(dec_string(m1 + (added2 + tail), base.len() as int) == Some(
                (p@.identifier, m1.len() as int),
            ));
            assert(dec_bytes(data, m1.len() as int) == Some((p@.bytes, out@.len() as int)));
        }
    }
}

/// Appends a counted list of metadata entries.
#[verifier::rlimit(100)]
#[verifier::spinoff_prover]
fn ser_meta_list(out: &mut Vec<u8>, entries: &Vec<(String, MetaValue)>)
    requires
        entries@.len() <= u32::MAX,
        forall|i: int|
            0 <= i < entries@.len() ==> str_fits((#[trigger] entries@[i]).0@) && meta_value_fits(
                entries@[i].1@,
            ),
    ensures
        final(out)@.len() >= old(out)@.len() + 4,
        final(out)@.subrange(0, old(out)@.len() as int) == old(out)@,
        forall|tail: Seq<u8>|
            dec_u32(#[trigger] (final(out)@ + tail), old(out)@.len() as int) == Some(
                (entries@.len() as u32, old(out)@.len() as int + 4),
            ),
        forall|tail: Seq<u8>|
            dec_list(
                #[trigger] (final(out)@ + tail),
                old(out)@.len() as int + 4,
                entries@.len() as int,
                meta_dec(),
            ) == Some(
                (
                    entries@.map(|i: int, kv: (String, MetaValue)| (kv.0@, kv.1@)),
                    final(out)@.len() as int,
                ),
            ),
{
    let ghost base = out@;
    let ghost views = entries@.map(|i: int, kv: (String, MetaValue)| (kv.0@, kv.1@));
    let n = entries.len();
    push_u32(out, n as u32);
    let ghost q = out@;
    proof {
        assert(views.take(0) =~= Seq::<(Seq<char>, MetaValueV)>::empty());
    }
    for j in 0..n
        invariant
            n == entries@.len(),
            n <= u32::MAX,
            forall|i: int|
                0 <= i < entries@.len() ==> str_fits((#[trigger] entries@[i]).0@)
                    && meta_value_fits(entries@[i].1@),
            views == entries@.map(|i: int, kv: (String, MetaValue)| (kv.0@, kv.1@)),
            q.len() == base.len() + 4,
            out@.len() >= q.len(),
            out@.subrange(0, q.len() as int) == q,
            out@.subrange(0, base.len() as int) == base,
            forall|tail: Seq<u8>|
                dec_u32(#[trigger] (q + tail), base.len() as int) == Some(
                    (n as u32, q.len() as int),
                ),
            forall|tail: Seq<u8>|
                dec_list(#[trigger] (out@ + tail), q.len() as int, j as int, meta_dec()) == Some(
                    (views.take(j as int), out@.len() as int),
                ),
    {
        let ghost pre = out@;
        proof {
            assert(views[j as int] == (entries@[j as int].0@, entries@[j as int].1@));
        }
        ser_meta_entry(out, &entries[j].0, &entries[j].1);
        proof {
            lemma_prefix_trans(q, pre, out@);
            lemma_prefix_trans(base, pre, out@);
            assert forall|tail: Seq<u8>|
                dec_list(#[trigger] (out@ + tail), q.len() as int, j as int + 1, meta_dec())
                    == Some((views.take(j as int + 1), out@.len() as int)) by {
                let data = out@ + tail;
                let added = out@.skip(pre.len() as int);
                assert(data =~= pre + (added + tail));
                assert(dec_list(pre + (added + tail), q.len() as int, j as int, meta_dec())
                    == Some((views.take(j as int), pre.len() as int)));
                assert(meta_dec()(data, pre.len() as int) == dec_meta_entry(
                    data,
                    pre.len() as int,
                ));
                assert(dec_meta_entry(data, pre.len() as int) == Some(
                    ((entries@[j as int].0@, entries@[j as int].1@), out@.len() as int),
                ));
                lemma_dec_list_snoc(data, q.len() as int, j as int, meta_dec());
                assert(views.take(j as int).push(views[j as int]) =~= views.take(j as int + 1));
            }
        }
    }
    proof {
        assert(views.take(n as int) =~= views);
        assert forall|tail: Seq<u8>|
            dec_u32(#[trigger] (out@ + tail), base.len() as int) == Some(
                (n as u32, q.len() as int),
            ) by {
            let data = out@ + tail;
            let added = out@.skip(q.len() as int);
            assert(data =~= q + (added + tail));
            assert(dec_u32(q + (added + tail), base.len() as int) == Some(
                (n as u32, q.len() as int),
            ));
        }
    }
}

/// Appends a counted list of patterns.
#[verifier::rlimit(100)]
#[verifier::spinoff_prover]
fn ser_pattern_list(out: &mut Vec<u8>, pats: &Vec<Pattern>)
    requires
        pats@.len() <= u32::MAX,
        forall|i: int|
            0 <= i < pats@.len() ==> str_fits((#[trigger] pats@[i])@.identifier) && (
            pats@[i])@.bytes.len() <= u32::MAX,
    ensures
        final(out)@.len() >= old(out)@.len() + 4,
        final(out)@.subrange(0, old(out)@.len() as int) == old(out)@,
        forall|tail: Seq<u8>|
            dec_u32(#[trigger] (final(out)@ + tail), old(out)@.len() as int) == Some(
                (pats@.len() as u32, old(out)@.len() as int + 4),
            ),
        forall|tail: Seq<u8>|
            dec_list(
                #[trigger] (final(out)@ + tail),
                old(out)@.len() as int + 4,
                pats@.len() as int,
                pattern_dec(),
            ) == Some((pats@.map(|i: int, p: Pattern| p@), final(out)@.len() as int)),
{
    let ghost base = out@;
    let ghost views = pats@.map(|i: int, p: Pattern| p@);
    let n = pats.len();
    push_u32(out, n as u32);
    let ghost q = out@;
    proof {
        assert(views.take(0) =~= Seq::<PatternV>::empty());
    }
    for j in 0..n
        invariant
            n == pats@.len(),
            n <= u32::MAX,
            forall|i: int|
                0 <= i < pats@.len() ==> str_fits((#[trigger] pats@[i])@.identifier) && (
                pats@[i])@.bytes.len() <= u32::MAX,
            views == pats@.map(|i: int, p: Pattern| p@),
            q.len() == base.len() + 4,
            out@.len() >= q.len(),
            out@.subrange(0, q.len() as int) == q,
            out@.subrange(0, base.len() as int) == base,
            forall|tail: Seq<u8>|
                dec_u32(#[trigger] (q + tail), base.len() as int) == Some(
                    (n as u32, q.len() as int),
                ),
            forall|tail: Seq<u8>|
                dec_list(#[trigger] (out@ + tail), q.len() as int, j as int, pattern_dec())
                    == Some((views.take(j as int), out@.len() as int)),
    {
        let ghost pre = out@;
        proof {
            assert(views[j as int] == pats@[j as int]@);
        }
        ser_pattern(out, &pats[j]);
        proof {
            lemma_prefix_trans(q, pre, out@);
            lemma_prefix_trans(base, pre, out@);
            assert forall|tail: Seq<u8>|
                dec_list(#[trigger] (out@ + tail), q.len() as int, j as int + 1, pattern_dec())
                    == Some((views.take(j as int + 1), out@.len() as int)) by {
                let data = out@ + tail;
                let added = out@.skip(pre.len() as int);
                assert(data =~= pre + (added + tail));
                assert(dec_list(pre + (added + tail), q.len() as int, j as int, pattern_dec())
                    == Some((views.take(j as int), pre.len() as int)));
                assert(pattern_dec()(data, pre.len() as int) == dec_pattern(
                    data,
                    pre.len() as int,
                ));
                assert(dec_pattern(data, pre.len() as int) == Some(
                    (pats@[j as int]@, out@.len() as int),
                ));
                lemma_dec_list_snoc(data, q.len() as int, j as int, pattern_dec());
                assert(views.take(j as int).push(views[j as int]) =~= views.take(j as int + 1));
            }
        }
    }
    proof {
        assert(views.take(n as int) =~= views);
        assert forall|tail: Seq<u8>|
            dec_u32(#[trigger] (out@ + tail), base.len() as int) == Some(
                (n as u32, q.len() as int),
            ) by {
            let data = out@ + tail;
            let added = out@.skip(q.len() as int);
            assert(data =~= q + (added + tail));
            assert(dec_u32(q + (added + tail), base.len() as int) == Some(
                (n as u32, q.len() as int),
            ));
        }
    }
}

/// Appends a counted list of instructions.
#[verifier::rlimit(100)]
#[verifier::spinoff_prover]
fn ser_instr_list(out: &mut Vec<u8>, prog: &Vec<Instr>)
    requires
        prog@.len() <= u32::MAX,
    ensures
        final(out)@.len() >= old(out)@.len() + 4,
        final(out)@.subrange(0, old(out)@.len() as int) == old(out)@,
        forall|tail: Seq<u8>|
            dec_u32(#[trigger] (final(out)@ + tail), old(out)@.len() as int) == Some(
                (prog@.len() as u32, old(out)@.len() as int + 4),
            ),
        forall|tail: Seq<u8>|
            dec_list(
                #[trigger] (final(out)@ + tail),
                old(out)@.len() as int + 4,
                prog@.len() as int,
                instr_dec(),
            ) == Some((prog@, final(out)@.len() as int)),
{
    let ghost base = out@;
    let n = prog.len();
    push_u32(out, n as u32);
    let ghost q = out@;
    proof {
        assert(prog@.take(0) =~= Seq::<Instr>::empty());
    }
    for j in 0..n
        invariant
            n == prog@.len(),
            n <= u32::MAX,
            q.len() == base.len() + 4,
            out@.len() >= q.len(),
            out@.subrange(0, q.len() as int) == q,
            out@.subrange(0, base.len() as int) == base,
            forall|tail: Seq<u8>|
                dec_u32(#[trigger] (q + tail), base.len() as int) == Some(
                    (n as u32, q.len() as int),
                ),
            forall|tail: Seq<u8>|
                dec_list(#[trigger] (out@ + tail), q.len() as int, j as int, instr_dec()) == Some(
                    (prog@.take(j as int), out@.len() as int),
                ),
    {
        let ghost pre = out@;
        let instr = prog[j];
        ser_instr(out, &instr);
        proof {
            lemma_prefix_trans(q, pre, out@);
            lemma_prefix_trans(base, pre, out@);
            assert forall|tail: Seq<u8>|
                dec_list(#[trigger] (out@ + tail), q.len() as int, j as int + 1, instr_dec())
                    == Some((prog@.take(j as int + 1), out@.len() as int)) by {
                let data = out@ + tail;
                let added = out@.skip(pre.len() as int);
                assert(data =~= pre + (added + tail));
                assert(dec_list(pre + (added + tail), q.len() as int, j as int, instr_dec())
                    == Some((prog@.take(j as int), pre.len() as int)));
                assert(instr_dec()(data, pre.len() as int) == dec_instr(data, pre.len() as int));
                assert(dec_instr(data, pre.len() as int) == Some((instr, out@.len() as int)));
                lemma_dec_list_snoc(data, q.len() as int, j as int, instr_dec());
                assert(prog@.take(j as int).push(prog@[j as int]) =~= prog@.take(j as int + 1));
            }
        }
    }
    proof {
        assert(prog@.take(n as int) =~= prog@);
        assert forall|tail: Seq<u8>|
            dec_u32(#[trigger] (out@ + tail), base.len() as int) == Some(
                (n as u32, q.len() as int),
            ) by {
            let data = out@ + tail;
            let added = out@.skip(q.len() as int);
            assert(data =~= q + (added + tail));
            assert(dec_u32(q + (added + tail), base.len() as int) == Some(
                (n as u32, q.len() as int),
            ));
        }
    }
}

/// Extending serialized output by one more correctly encoded item
/// extends the decoded list by that item.
#[verifier::spinoff_prover]
proof fn lemma_list_step<T>(
    pre: Seq<u8>,
    outv: Seq<u8>,
    lstart: int,
    j: int,
    f: spec_fn(Seq<u8>, int) -> Option<(T, int)>,
    views_pre: Seq<T>,
    v: T,
)
    requires
        j >= 0,
        pre.len() <= outv.len(),
        outv.subrange(0, pre.len() as int) == pre,
        forall|tail: Seq<u8>|
            dec_list(#[trigger] (pre + tail), lstart, j, f) == Some((views_pre, pre.len() as int)),
        forall|tail: Seq<u8>|
            #![trigger outv + tail]
            f(outv + tail, pre.len() as int) == Some((v, outv.len() as int)),
    ensures
        forall|tail: Seq<u8>|
            dec_list(#[trigger] (outv + tail), lstart, j + 1, f) == Some(
                (views_pre.push(v), outv.len() as int),
            ),
{
    assert forall|tail: Seq<u8>|
        dec_list(#[trigger] (outv + tail), lstart, j + 1, f) == Some(
            (views_pre.push(v), outv.len() as int),
        ) by {
        let data = outv + tail;
        let added = outv.skip(pre.len() as int);
        assert(data =~= pre + (added + tail));
        assert(dec_list(pre + (added + tail), lstart, j, f) == Some(
            (views_pre, pre.len() as int),
        ));
        assert(f(data, pre.len() as int) == Some((v, outv.len() as int)));
        lemma_dec_list_snoc(data, lstart, j, f);
    }
}

/// Splitting concatenated output at a recorded prefix.
proof fn lemma_concat_refactor(outv: Seq<u8>, q: Seq<u8>, tail: Seq<u8>)
    requires
        q.len() <= outv.len(),
        outv.subrange(0, q.len() as int) == q,
    ensures
        outv + tail == q + (outv.skip(q.len() as int) + tail),
{
    assert(outv + tail =~= q + (outv.skip(q.len() as int) + tail));
}

/// Composes the per-part decode facts of a serialized rule into the
/// decode of the whole rule.
#[verifier::rlimit(100)]
#[verifier::spinoff_prover]
proof fn lemma_compose_rule(
    outv: Seq<u8>,
    base: Seq<u8>,
    q1: Seq<u8>,
    q2: Seq<u8>,
    q3: Seq<u8>,
    q4: Seq<u8>,
    rv: CompiledRuleV,
    nmeta: u32,
    npat: u32,
    nprog: u32,
)
    requires
        base.len() <= q1.len() <= q2.len() <= q3.len() <= q4.len() <= outv.len(),
        nmeta as int == rv.metadata.len(),
        npat as int == rv.patterns.len(),
        nprog as int == rv.program.len(),
        outv.subrange(0, q1.len() as int) == q1,
        outv.subrange(0, q2.len() as int) == q2,
        outv.subrange(0, q3.len() as int) == q3,
        outv.subrange(0, q4.len() as int) == q4,
        forall|tail: Seq<u8>|
            dec_string(#[trigger] (q1 + tail), base.len() as int) == Some(
                (rv.identifier, q1.len() as int),
            ),
        forall|tail: Seq<u8>|
            dec_string(#[trigger] (q2 + tail), q1.len() as int) == Some(
                (rv.namespace, q2.len() as int),
            ),
        forall|tail: Seq<u8>|
            dec_u32(#[trigger] (q3 + tail), q2.len() as int) == Some(
                (nmeta, q2.len() as int + 4),
            ),
        forall|tail: Seq<u8>|
            dec_list(#[trigger] (q3 + tail), q2.len() as int + 4, nmeta as int, meta_dec())
                == Some((rv.metadata, q3.len() as int)),
        forall|tail: Seq<u8>|
            dec_u32(#[trigger] (q4 + tail), q3.len() as int) == Some(
                (npat, q3.len() as int + 4),
            ),
        forall|tail: Seq<u8>|
            dec_list(#[trigger] (q4 + tail), q3.len() as int + 4, npat as int, pattern_dec())
                == Some((rv.patterns, q4.len() as int)),
        forall|tail: Seq<u8>|
            dec_u32(#[trigger] (outv + tail), q4.len() as int) == Some(
                (nprog, q4.len() as int + 4),
            ),
        forall|tail: Seq<u8>|
            dec_list(#[trigger] (outv + tail), q4.len() as int + 4, nprog as int, instr_dec())
                == Some((rv.program, outv.len() as int)),
    ensures
        forall|tail: Seq<u8>|
            dec_rule(#[trigger] (outv + tail), base.len() as int) == Some(
                (rv, outv.len() as int),
            ),
{
    assert forall|tail: Seq<u8>|
        dec_rule(#[trigger] (outv + tail), base.len() as int) == Some(
            (rv, outv.len() as int),
        ) by {
        let data = outv + tail;
        lemma_concat_refactor(outv, q1, tail);
        assert(dec_string(data, base.len() as int) == Some((rv.identifier, q1.len() as int)));
        lemma_concat_refactor(outv, q2, tail);
        assert(dec_string(data, q1.len() as int) == Some((rv.namespace, q2.len() as int)));
        lemma_concat_refactor(outv, q3, tail);
        assert(dec_u32(data, q2.len() as int) == Some((nmeta, q2.len() as int + 4)));
        assert(dec_list(data, q2.len() as int + 4, nmeta as int, meta_dec()) == Some(
            (rv.metadata, q3.len() as int),
        ));
        lemma_concat_refactor(outv, q4, tail);
        assert(dec_u32(data, q3.len() as int) == Some((npat, q3.len() as int + 4)));
        assert(dec_list(data, q3.len() as int + 4, npat as int, pattern_dec()) == Some(
            (rv.patterns, q4.len() as int),
        ));
        assert(dec_u32(data, q4.len() as int) == Some((nprog, q4.len() as int + 4)));
        assert(dec_list(data, q4.len() as int + 4, nprog as int, instr_dec()) == Some(
            (rv.program, outv.len() as int),
        ));
    }
}

/// Appends one rule: identifier, namespace, metadata, patterns, program,
/// each list with its count.
#[verifier::rlimit(100)]
#[verifier::spinoff_prover]
fn ser_rule(out: &mut Vec<u8>, r: &CompiledRule)
    requires
        rule_fits(r@),
    ensures
        final(out)@.len() > old(out)@.len(),
        final(out)@.subrange(0, old(out)@.len() as int) == old(out)@,
        forall|tail: Seq<u8>|
            dec_rule(#[trigger] (final(out)@ + tail), old(out)@.len() as int) == Some(
                (r@, final(out)@.len() as int),
            ),
{
    let ghost base = out@;
    proof {
        assert forall|i: int| 0 <= i < r.metadata@.len() implies str_fits(
            (#[trigger] r.metadata@[i]).0@,
        ) && meta_value_fits(r.metadata@[i].1@) by {
            assert(r@.metadata[i] == (r.metadata@[i].0@, r.metadata@[i].1@));
        }
        assert forall|i: int| 0 <= i < r.patterns@.len() implies str_fits(
            (#[trigger] r.patterns@[i])@.identifier,
        ) && (r.patterns@[i])@.bytes.len() <= u32::MAX by {
            assert(r@.patterns[i] == r.patterns@[i]@);
        }
    }
    ser_string(out, &r.identifier);
    let ghost q1 = out@;
    ser_string(out, &r.namespace);
    let ghost q2 = out@;
    ser_meta_list(out, &r.metadata);
    let ghost q3 = out@;
    ser_pattern_list(out, &r.patterns);
    let ghost q4 = out@;
    ser_instr_list(out, &r.program);
    proof {
        lemma_prefix_trans(base, q1, q2);
        lemma_prefix_trans(base, q2, q3);
        lemma_prefix_trans(base, q3, q4);
        lemma_prefix_trans(base, q4, out@);
        lemma_prefix_trans(q1, q2, q3);
        lemma_prefix_trans(q1, q3, q4);
        lemma_prefix_trans(q1, q4, out@);
        lemma_prefix_trans(q2, q3, q4);
        lemma_prefix_trans(q2, q4, out@);
        lemma_prefix_trans(q3, q4, out@);
        assert(r@.metadata =~= r.metadata@.map(
            |i: int, kv: (String, MetaValue)| (kv.0@, kv.1@),
        ));
        assert(r@.patterns =~= r.patterns@.map(|i: int, p: Pattern| p@));
        lemma_compose_rule(
            out@,
            base,
            q1,
            q2,
            q3,
            q4,
            r@,
            r.metadata@.len() as u32,
            r.patterns@.len() as u32,
            r.program@.len() as u32,
        );
    }
}

/// Whether a string fits its length prefix.
fn check_string(s: &String) -> (r: bool)
    ensures
        r == str_fits(s@),
{
    s.as_str().as_bytes().len() <= u32::MAX as usize
}

/// Whether a metadata value fits its length prefix.
fn check_meta_value(v: &MetaValue) -> (r: bool)
    ensures
        r == meta_value_fits(v@),
{
    match v {
        MetaValue::Str(s) => check_string(s),
        MetaValue::Bytes(b) => b.len() <= u32::MAX as usize,
        _ => true,
    }
}

/// Whether every part of a rule fits its length prefix.
fn check_rule(r: &CompiledRule) -> (res: bool)
    ensures
        res == rule_fits(r@),
{
    if !check_string(&r.identifier) {
        return false;
    }
    if !check_string(&r.namespace) {
        return false;
    }
    let nmeta = r.metadata.len();
    if nmeta > u32::MAX as usize {
        return false;
    }
    for i in 0..nmeta
        invariant
            nmeta == r.metadata@.len(),
            forall|j: int|
                0 <= j < i ==> str_fits((#[trigger] r@.metadata[j]).0) && meta_value_fits(
                    r@.metadata[j].1,
                ),
    {
        proof {
            assert(r@.metadata[i as int] == (r.metadata@[i as int].0@, r.metadata@[i as int].1@));
        }
        if !check_string(&r.metadata[i].0) {
            return false;
        }
        if !check_meta_value(&r.metadata[i].1) {
            return false;
        }
    }
    let npat = r.patterns.len();
    if npat > u32::MAX as usize {
        return false;
    }
    for k in 0..npat
        invariant
            npat == r.patterns@.len(),
            forall|j: int|
                0 <= j < k ==> str_fits((#[trigger] r@.patterns[j]).identifier) && (
                r@.patterns[j]).bytes.len() <= u32::MAX,
    {
        proof {
            assert(r@.patterns[k as int] == r.patterns@[k as int]@);
        }
        if !check_string(&r.patterns[k].identifier) {
            return false;
        }
        if r.patterns[k].bytes.len() > u32::MAX as usize {
            return false;
        }
    }
    if r.program.len() > u32::MAX as usize {
        return false;
    }
    true
}

/// Whether every part of an artifact fits its length prefix.
fn check_artifact(m: &CompiledRules) -> (res: bool)
    ensures
        res == artifact_fits(m@),
{
    let nrules = m.rules.len();
    if nrules > u32::MAX as usize {
        return false;
    }
    for i in 0..nrules
        invariant
            nrules == m.rules@.len(),
            forall|j: int| 0 <= j < i ==> rule_fits(#[trigger] m@.rules[j]),
    {
        proof {
            assert(m@.rules[i as int] == m.rules@[i as int]@);
        }
        if !check_rule(&m.rules[i]) {
            return false;
        }
    }
    let nimp = m.imports.len();
    if nimp > u32::MAX as usize {
        return false;
    }
    for i in 0..nimp
        invariant
            nimp == m.imports@.len(),
            forall|j: int| 0 <= j < i ==> str_fits(#[trigger] m@.imports[j]),
    {
        proof {
            assert(m@.imports[i as int] == m.imports@[i as int]@);
        }
        if !check_string(&m.imports[i]) {
            return false;
        }
    }
    true
}

impl CompiledRules {
    /// Serializes the artifact as a version-tagged byte string.
    ///
    /// Succeeds exactly when every list and string fits its 32-bit length
    /// prefix; the output decodes back to this very artifact, so
    /// `deserialize` round-trips it.
    #[verifier::rlimit(100)]
    #[verifier::spinoff_prover]
    pub fn serialize(&self) -> (r: Result<Vec<u8>, SerializationError>)
        ensures
            r is Ok <==> artifact_fits(self@),
            r is Ok ==> dec_artifact(r->Ok_0@) == Some(self@),
    {
        if !check_artifact(self) {
            return Err(SerializationError);
        }
        let mut out: Vec<u8> = Vec::new();
        let ghost base = out@;
        push_u32(&mut out, FORMAT_VERSION);
        let ghost q1 = out@;
        let nrules = self.rules.len();
        push_u32(&mut out, nrules as u32);
        let ghost q2 = out@;
        proof {
            lemma_prefix_trans(base, q1, q2);
            assert(self@.rules.take(0) =~= Seq::<CompiledRuleV>::empty());
        }
        for j in 0..nrules
            invariant
                artifact_fits(self@),
                nrules == self.rules@.len(),
                out@.len() >= q2.len(),
                q2.len() > base.len(),
                out@.subrange(0, q2.len() as int) == q2,
                out@.subrange(0, base.len() as int) == base,
                forall|tail: Seq<u8>|
                    dec_list(#[trigger] (out@ + tail), q2.len() as int, j as int, rule_dec())
                        == Some((self@.rules.take(j as int), out@.len() as int)),
        {
            let ghost pre = out@;
            proof {
                assert(self@.rules[j as int] == self.rules@[j as int]@);
            }
            ser_rule(&mut out, &self.rules[j]);
            proof {
                lemma_prefix_trans(q2, pre, out@);
                lemma_prefix_trans(base, pre, out@);
                assert forall|tail: Seq<u8>|
                    #![trigger out@ + tail]
                    rule_dec()(out@ + tail, pre.len() as int) == Some(
                        (self@.rules[j as int], out@.len() as int),
                    ) by {
                    assert(rule_dec()(out@ + tail, pre.len() as int) == dec_rule(
                        out@ + tail,
                        pre.len() as int,
                    ));
                }
                lemma_list_step(
                    pre,
                    out@,
                    q2.len() as int,
                    j as int,
                    rule_dec(),
                    self@.rules.take(j as int),
                    self@.rules[j as int],
                );
                assert(self@.rules.take(j as int).push(self@.rules[j as int])
                    =~= self@.rules.take(j as int + 1));
            }
        }
        let ghost q3 = out@;
        let nimp = self.imports.len();
        push_u32(&mut out, nimp as u32);
        let ghost q4 = out@;
        proof {
            lemma_prefix_trans(base, q3, q4);
            assert(self@.imports.take(0) =~= Seq::<Seq<char>>::empty());
        }
        for j in 0..nimp
            invariant
                artifact_fits(self@),
                nimp == self.imports@.len(),
                out@.len() >= q4.len(),
                q4.len() > base.len(),
                out@.subrange(0, q4.len() as int) == q4,
                out@.subrange(0, base.len() as int) == base,
                forall|tail: Seq<u8>|
                    dec_list(#[trigger] (out@ + tail), q4.len() as int, j as int, string_dec())
                        == Some((self@.imports.take(j as int), out@.len() as int)),
        {
            let ghost pre = out@;
            proof {
                assert(self@.imports[j as int] == self.imports@[j as int]@);
            }
            ser_string(&mut out, &self.imports[j]);
            proof {
                lemma_prefix_trans(q4, pre, out@);
                lemma_prefix_trans(base, pre, out@);
                assert forall|tail: Seq<u8>|
                    dec_list(#[trigger] (out@ + tail), q4.len() as int, j as int + 1, string_dec())
                        == Some((self@.imports.take(j as int + 1), out@.len() as int)) by {
                    let data = out@ + tail;
                    let added = out@.skip(pre.len() as int);
                    assert(data =~= pre + (added + tail));
                    assert(dec_list(pre + (added + tail), q4.len() as int, j as int, string_dec())
                        == Some((self@.imports.take(j as int), pre.len() as int)));
                    assert(string_dec()(data, pre.len() as int) == dec_string(
                        data,
                        pre.len() as int,
                    ));
                    assert(dec_string(data, pre.len() as int) == Some(
                        (self.imports@[j as int]@, out@.len() as int),
                    ));
                    lemma_dec_list_snoc(data, q4.len() as int, j as int, string_dec());
                    assert(self@.imports.take(j as int).push(self@.imports[j as int])
                        =~= self@.imports.take(j as int + 1));
                }
            }
        }
        proof {
            assert(self@.rules.take(nrules as int) =~= self@.rules);
            assert(self@.imports.take(nimp as int) =~= self@.imports);
            let data = out@ + Seq::<u8>::empty();
            assert(data =~= out@);
            let a1 = out@.skip(q1.len() as int);
            assert(data =~= q1 + (a1 + Seq::<u8>::empty()));
            assert(dec_u32(q1 + (a1 + Seq::<u8>::empty()), 0) == Some(
                (FORMAT_VERSION, q1.len() as int),
            ));
            assert(dec_u32(data, 0) == Some((FORMAT_VERSION, q1.len() as int)));
            let a2 = out@.skip(q2.len() as int);
            assert(data =~= q2 + (a2 + Seq::<u8>::empty()));
            assert(dec_u32(q2 + (a2 + Seq::<u8>::empty()), q1.len() as int) == Some(
                (nrules as u32, q2.len() as int),
            ));
            assert(dec_u32(data, q1.len() as int) == Some((nrules as u32, q2.len() as int)));
            let a3 = out@.skip(q3.len() as int);
            assert(data =~= q3 + (a3 + Seq::<u8>::empty()));
            assert(dec_list(q3 + (a3 + Seq::<u8>::empty()), q2.len() as int, nrules as int, rule_dec())
                == Some((self@.rules.take(nrules as int), q3.len() as int)));
            assert(dec_list(data, q2.len() as int, nrules as int, rule_dec()) == Some(
                (self@.rules, q3.len() as int),
            ));
            let a4 = out@.skip(q4.len() as int);
            assert(data =~= q4 + (a4 + Seq::<u8>::empty()));
            assert(dec_u32(q4 + (a4 + Seq::<u8>::empty()), q3.len() as int) == Some(
                (nimp as u32, q4.len() as int),
            ));
            assert(dec_u32(data, q3.len() as int) == Some((nimp as u32, q4.len() as int)));
            assert(dec_list(out@ + Seq::<u8>::empty(), q4.len() as int, nimp as int, string_dec())
                == Some((self@.imports.take(nimp as int), out@.len() as int)));
            assert(dec_list(data, q4.len() as int, nimp as int, string_dec()) == Some(
                (self@.imports, out@.len() as int),
            ));
            assert(dec_artifact(out@) == Some(self@));
        }
        Ok(out)
    }
}

/// Reads a `u32` at `pos`.
fn rd_u32(data: &[u8], pos: usize) -> (r: Result<(u32, usize), SerializationError>)
    ensures
        r is Ok <==> dec_u32(data@, pos as int) is Some,
        r is Ok ==> Some((r->Ok_0.0, r->Ok_0.1 as int)) == dec_u32(data@, pos as int),
        r is Ok ==> r->Ok_0.1 <= data@.len(),
{
    let n = data.len();
    match parse_u32_at(data, pos) {
        Ok(v) => Ok((v, pos + 4)),
        Err(_) => Err(SerializationError),
    }
}

/// Reads a `u64` at `pos`.
fn rd_u64(data: &[u8], pos: usize) -> (r: Result<(u64, usize), SerializationError>)
    ensures
        r is Ok <==> dec_u64(data@, pos as int) is Some,
        r is Ok ==> Some((r->Ok_0.0, r->Ok_0.1 as int)) == dec_u64(data@, pos as int),
        r is Ok ==> r->Ok_0.1 <= data@.len(),
{
    let n = data.len();
    match parse_u64_at(data, pos) {
        Ok(v) => Ok((v, pos + 8)),
        Err(_) => Err(SerializationError),
    }
}

/// Reads an `i64` at `pos`, stored as its two's-complement bits.
fn rd_i64(data: &[u8], pos: usize) -> (r: Result<(i64, usize), SerializationError>)
    ensures
        r is Ok <==> dec_i64(data@, pos as int) is Some,
        r is Ok ==> Some((r->Ok_0.0, r->Ok_0.1 as int)) == dec_i64(data@, pos as int),
        r is Ok ==> r->Ok_0.1 <= data@.len(),
{
    match rd_u64(data, pos) {
        Ok((v, p)) => Ok((v as i64, p)),
        Err(e) => Err(e),
    }
}

/// Reads a length-prefixed byte string at `pos`.
fn rd_bytes(data: &[u8], pos: usize) -> (r: Result<(Vec<u8>, usize), SerializationError>)
    ensures
        r is Ok <==> dec_bytes(data@, pos as int) is Some,
        r is Ok ==> {
            let d = dec_bytes(data@, pos as int)->0;
            r->Ok_0.0@ == d.0 && r->Ok_0.1 as int == d.1
        },
        r is Ok ==> r->Ok_0.1 <= data@.len(),
{
    let (len, p) = match rd_u32(data, pos) {
        Ok(v) => v,
        Err(e) => {
            return Err(e);
        },
    };
    if (len as usize) > data.len() - p {
        return Err(SerializationError);
    }
    let payload = copy_bytes(&data[p..p + (len as usize)]);
    Ok((payload, p + (len as usize)))
}

/// Reads a length-prefixed UTF-8 string at `pos`.
fn rd_string(data: &[u8], pos: usize) -> (r: Result<(String, usize), SerializationError>)
    ensures
        r is Ok <==> dec_string(data@, pos as int) is Some,
        r is Ok ==> {
            let d = dec_string(data@, pos as int)->0;
            r->Ok_0.0@ == d.0 && r->Ok_0.1 as int == d.1
        },
        r is Ok ==> r->Ok_0.1 <= data@.len(),
{
    let (bytes, p) = match rd_bytes(data, pos) {
        Ok(v) => v,
        Err(e) => {
            return Err(e);
        },
    };
    let ghost bv = bytes@;
    match utf8_exact(bytes) {
        Ok(s) => {
            proof {
                encode_utf8_decode_utf8(s@);
            }
            Ok((s, p))
        },
        Err(_) => Err(SerializationError),
    }
}

/// Reads one instruction at `pos`.
fn rd_instr(data: &[u8], pos: usize) -> (r: Result<(Instr, usize), SerializationError>)
    ensures
        r is Ok <==> dec_instr(data@, pos as int) is Some,
        r is Ok ==> {
            let d = dec_instr(data@, pos as int)->0;
            r->Ok_0.0 == d.0 && r->Ok_0.1 as int == d.1
        },
        r is Ok ==> r->Ok_0.1 <= data@.len(),
{
    if pos >= data.len() {
        return Err(SerializationError);
    }
    let tag = data[pos];
    if tag == 1 {
        match rd_i64(data, pos + 1) {
            Ok((v, p)) => Ok((Instr::PushInt(v), p)),
            Err(e) => Err(e),
        }
    } else if tag == 2 {
        Ok((Instr::PushFilesize, pos + 1))
    } else if tag == 3 {
        match rd_u32(data, pos + 1) {
            Ok((k, p)) => Ok((Instr::PushPattern(k), p)),
            Err(e) => Err(e),
        }
    } else if tag == 4 {
        if pos + 1 < data.len() {
            let b = data[pos + 1];
            if b == 0 {
                Ok((Instr::Cmp(CmpOp::Gt), pos + 2))
            } else if b == 1 {
                Ok((Instr::Cmp(CmpOp::Lt), pos + 2))
            } else if b == 2 {
                Ok((Instr::Cmp(CmpOp::Ge), pos + 2))
            } else if b == 3 {
                Ok((Instr::Cmp(CmpOp::Le), pos + 2))
            } else if b == 4 {
                Ok((Instr::Cmp(CmpOp::Eq), pos + 2))
            } else if b == 5 {
                Ok((Instr::Cmp(CmpOp::Ne), pos + 2))
            } else {
                Err(SerializationError)
            }
        } else {
            Err(SerializationError)
        }
    } else if tag == 5 {
        Ok((Instr::And, pos + 1))
    } else if tag == 6 {
        Ok((Instr::Or, pos + 1))
    } else if tag == 7 {
        Ok((Instr::Not, pos + 1))
    } else {
        Err(SerializationError)
    }
}

/// Reads one metadata value at `pos`.
fn rd_meta_value(data: &[u8], pos: usize) -> (r: Result<(MetaValue, usize), SerializationError>)
    ensures
        r is Ok <==> dec_meta_value(data@, pos as int) is Some,
        r is Ok ==> {
            let d = dec_meta_value(data@, pos as int)->0;
            r->Ok_0.0@ == d.0 && r->Ok_0.1 as int == d.1
        },
        r is Ok ==> r->Ok_0.1 <= data@.len(),
{
    if pos >= data.len() {
        return Err(SerializationError);
    }
    let tag = data[pos];
    if tag == 0 {
        match rd_i64(data, pos + 1) {
            Ok((v, p)) => Ok((MetaValue::Int(v), p)),
            Err(e) => Err(e),
        }
    } else if tag == 1 {
        match rd_u64(data, pos + 1) {
            Ok((v, p)) => Ok((MetaValue::FloatBits(v), p)),
            Err(e) => Err(e),
        }
    } else if tag == 2 {
        if pos + 1 < data.len() && (data[pos + 1] == 0 || data[pos + 1] == 1) {
            Ok((MetaValue::Bool(data[pos + 1] == 1), pos + 2))
        } else {
            Err(SerializationError)
        }
    } else if tag == 3 {
        match rd_string(data, pos + 1) {
            Ok((s, p)) => Ok((MetaValue::Str(s), p)),
            Err(e) => Err(e),
        }
    } else if tag == 4 {
        match rd_bytes(data, pos + 1) {
            Ok((b, p)) => Ok((MetaValue::Bytes(b), p)),
            Err(e) => Err(e),
        }
    } else {
        Err(SerializationError)
    }
}

/// Reads one metadata entry at `pos`: key, then value.
fn rd_meta_entry(data: &[u8], pos: usize) -> (r: Result<
    ((String, MetaValue), usize),
    SerializationError,
>)
    ensures
        r is Ok <==> dec_meta_entry(data@, pos as int) is Some,
        r is Ok ==> {
            let d = dec_meta_entry(data@, pos as int)->0;
            (r->Ok_0.0.0@, r->Ok_0.0.1@) == d.0 && r->Ok_0.1 as int == d.1
        },
        r is Ok ==> r->Ok_0.1 <= data@.len(),
{
    let (k, p) = match rd_string(data, pos) {
        Ok(v) => v,
        Err(e) => {
            return Err(e);
        },
    };
    let (v, p2) = match rd_meta_value(data, p) {
        Ok(v) => v,
        Err(e) => {
            return Err(e);
        },
    };
    Ok(((k, v), p2))
}

/// Reads one pattern at `pos`: identifier, then byte string.
fn rd_pattern(data: &[u8], pos: usize) -> (r: Result<(Pattern, usize), SerializationError>)
    ensures
        r is Ok <==> dec_pattern(data@, pos as int) is Some,
        r is Ok ==> {
            let d = dec_pattern(data@, pos as int)->0;
            r->Ok_0.0@ == d.0 && r->Ok_0.1 as int == d.1
        },
        r is Ok ==> r->Ok_0.1 <= data@.len(),
{
    let (ident, p) = match rd_string(data, pos) {
        Ok(v) => v,
        Err(e) => {
            return Err(e);
        },
    };
    let (b, p2) = match rd_bytes(data, p) {
        Ok(v) => v,
        Err(e) => {
            return Err(e);
        },
    };
    Ok((Pattern { identifier: ident, bytes: b }, p2))
}

/// Reads one rule at `pos`.
#[verifier::rlimit(100)]
#[verifier::spinoff_prover]
fn rd_rule(data: &[u8], pos: usize) -> (r: Result<(CompiledRule, usize), SerializationError>)
    ensures
        r is Ok <==> dec_rule(data@, pos as int) is Some,
        r is Ok ==> {
            let d = dec_rule(data@, pos as int)->0;
            r->Ok_0.0@ == d.0 && r->Ok_0.1 as int == d.1
        },
        r is Ok ==> r->Ok_0.1 <= data@.len(),
{
    let (identifier, p1) = match rd_string(data, pos) {
        Ok(v) => v,
        Err(e) => {
            return Err(e);
        },
    };
    let (namespace, p2) = match rd_string(data, p1) {
        Ok(v) => v,
        Err(e) => {
            return Err(e);
        },
    };
    let (nmeta, p3) = match rd_u32(data, p2) {
        Ok(v) => v,
        Err(e) => {
            return Err(e);
        },
    };
    let ghost metafull = dec_list(data@, p3 as int, nmeta as int, meta_dec());
    let mut metadata: Vec<(String, MetaValue)> = Vec::new();
    let mut p = p3;
    let mut j: u32 = 0;
    proof {
        assert(metadata@.map(|i: int, kv: (String, MetaValue)| (kv.0@, kv.1@))
            =~= Seq::<(Seq<char>, MetaValueV)>::empty());
    }
    while j < nmeta
        invariant
            j <= nmeta,
            p <= data@.len(),
            dec_string(data@, pos as int) == Some((identifier@, p1 as int)),
            dec_string(data@, p1 as int) == Some((namespace@, p2 as int)),
            dec_u32(data@, p2 as int) == Some((nmeta, p3 as int)),
            metafull == dec_list(data@, p3 as int, nmeta as int, meta_dec()),
            metafull == match dec_list(data@, p as int, nmeta as int - j as int, meta_dec()) {
                Some((rest, q)) => Some(
                    (
                        metadata@.map(|i: int, kv: (String, MetaValue)| (kv.0@, kv.1@)) + rest,
                        q,
                    ),
                ),
                None => None,
            },
        decreases nmeta - j,
    {
        let ghost prevm = metadata@.map(|i: int, kv: (String, MetaValue)| (kv.0@, kv.1@));
        let (kv, p2x) = match rd_meta_entry(data, p) {
            Ok(v) => v,
            Err(e) => {
                proof {
                    assert(dec_list(data@, p as int, nmeta as int - j as int, meta_dec())
                        is None);
                    assert(dec_rule(data@, pos as int) is None);
                }
                return Err(e);
            },
        };
        metadata.push(kv);
        proof {
            let newm = metadata@.map(|i: int, kv2: (String, MetaValue)| (kv2.0@, kv2.1@));
            assert(newm.len() == prevm.len() + 1);
            assert(forall|x: int| 0 <= x < prevm.len() ==> newm[x] == prevm[x]);
            let d = dec_meta_entry(data@, p as int)->0;
            assert(newm[prevm.len() as int] == d.0);
            match dec_list(data@, d.1, nmeta as int - j as int - 1, meta_dec()) {
                Some((rest2, q2)) => {
                    assert(prevm + (Seq::empty().push(d.0) + rest2) =~= newm + rest2);
                },
                None => {},
            }
        }
        p = p2x;
        j = j + 1;
    }
    proof {
        assert(dec_list(data@, p as int, 0, meta_dec()) == Some(
            (Seq::<(Seq<char>, MetaValueV)>::empty(), p as int),
        ));
        assert(metadata@.map(|i: int, kv: (String, MetaValue)| (kv.0@, kv.1@))
            + Seq::<(Seq<char>, MetaValueV)>::empty() =~= metadata@.map(
            |i: int, kv: (String, MetaValue)| (kv.0@, kv.1@),
        ));
    }
    let (npat, p5) = match rd_u32(data, p) {
        Ok(v) => v,
        Err(e) => {
            return Err(e);
        },
    };
    let ghost patfull = dec_list(data@, p5 as int, npat as int, pattern_dec());
    let mut patterns: Vec<Pattern> = Vec::new();
    let mut q = p5;
    let mut k: u32 = 0;
    proof {
        assert(patterns@.map(|i: int, x: Pattern| x@) =~= Seq::<PatternV>::empty());
    }
    while k < npat
        invariant
            k <= npat,
            q <= data@.len(),
            dec_string(data@, pos as int) == Some((identifier@, p1 as int)),
            dec_string(data@, p1 as int) == Some((namespace@, p2 as int)),
            dec_u32(data@, p2 as int) == Some((nmeta, p3 as int)),
            dec_list(data@, p3 as int, nmeta as int, meta_dec()) == Some(
                (metadata@.map(|i: int, kv: (String, MetaValue)| (kv.0@, kv.1@)), p as int),
            ),
            dec_u32(data@, p as int) == Some((npat, p5 as int)),
            patfull == dec_list(data@, p5 as int, npat as int, pattern_dec()),
            patfull == match dec_list(data@, q as int, npat as int - k as int, pattern_dec()) {
                Some((rest, qq)) => Some((patterns@.map(|i: int, x: Pattern| x@) + rest, qq)),
                None => None,
            },
        decreases npat - k,
    {
        let ghost prevm = patterns@.map(|i: int, x: Pattern| x@);
        let (pat, q2x) = match rd_pattern(data, q) {
            Ok(v) => v,
            Err(e) => {
                proof {
                    assert(dec_list(data@, q as int, npat as int - k as int, pattern_dec())
                        is None);
                    assert(dec_rule(data@, pos as int) is None);
                }
                return Err(e);
            },
        };
        patterns.push(pat);
        proof {
            let newm = patterns@.map(|i: int, x: Pattern| x@);
            assert(newm.len() == prevm.len() + 1);
            assert(forall|x: int| 0 <= x < prevm.len() ==> newm[x] == prevm[x]);
            let d = dec_pattern(data@, q as int)->0;
            assert(newm[prevm.len() as int] == d.0);
            match dec_list(data@, d.1, npat as int - k as int - 1, pattern_dec()) {
                Some((rest2, q2)) => {
                    assert(prevm + (Seq::empty().push(d.0) + rest2) =~= newm + rest2);
                },
                None => {},
            }
        }
        q = q2x;
        k = k + 1;
    }
    proof {
        assert(dec_list(data@, q as int, 0, pattern_dec()) == Some(
            (Seq::<PatternV>::empty(), q as int),
        ));
        assert(patterns@.map(|i: int, x: Pattern| x@) + Seq::<PatternV>::empty()
            =~= patterns@.map(|i: int, x: Pattern| x@));
    }
    let (nprog, p7) = match rd_u32(data, q) {
        Ok(v) => v,
        Err(e) => {
            return Err(e);
        },
    };
    let ghost progfull = dec_list(data@, p7 as int, nprog as int, instr_dec());
    let mut program: Vec<Instr> = Vec::new();
    let mut w = p7;
    let mut m: u32 = 0;
    proof {
        assert(program@ =~= Seq::<Instr>::empty());
    }
    while m < nprog
        invariant
            m <= nprog,
            w <= data@.len(),
            dec_string(data@, pos as int) == Some((identifier@, p1 as int)),
            dec_string(data@, p1 as int) == Some((namespace@, p2 as int)),
            dec_u32(data@, p2 as int) == Some((nmeta, p3 as int)),
            dec_list(data@, p3 as int, nmeta as int, meta_dec()) == Some(
                (metadata@.map(|i: int, kv: (String, MetaValue)| (kv.0@, kv.1@)), p as int),
            ),
            dec_u32(data@, p as int) == Some((npat, p5 as int)),
            dec_list(data@, p5 as int, npat as int, pattern_dec()) == Some(
                (patterns@.map(|i: int, x: Pattern| x@), q as int),
            ),
            dec_u32(data@, q as int) == Some((nprog, p7 as int)),
            progfull == dec_list(data@, p7 as int, nprog as int, instr_dec()),
            progfull == match dec_list(data@, w as int, nprog as int - m as int, instr_dec()) {
                Some((rest, ww)) => Some((program@ + rest, ww)),
                None => None,
            },
        decreases nprog - m,
    {
        let ghost prevm = program@;
        let (instr, w2x) = match rd_instr(data, w) {
            Ok(v) => v,
            Err(e) => {
                proof {
                    assert(dec_list(data@, w as int, nprog as int - m as int, instr_dec())
                        is None);
                    assert(dec_rule(data@, pos as int) is None);
                }
                return Err(e);
            },
        };
        program.push(instr);
        proof {
            let d = dec_instr(data@, w as int)->0;
            match dec_list(data@, d.1, nprog as int - m as int - 1, instr_dec()) {
                Some((rest2, q2)) => {
                    assert(prevm + (Seq::empty().push(d.0) + rest2) =~= program@ + rest2);
                },
                None => {},
            }
        }
        w = w2x;
        m = m + 1;
    }
    proof {
        assert(dec_list(data@, w as int, 0, instr_dec()) == Some(
            (Seq::<Instr>::empty(), w as int),
        ));
        assert(program@ + Seq::<Instr>::empty() =~= program@);
    }
    let rule = CompiledRule { identifier, namespace, metadata, patterns, program };
    proof {
        assert(rule@.metadata =~= rule.metadata@.map(
            |i: int, kv: (String, MetaValue)| (kv.0@, kv.1@),
        ));
        assert(rule@.patterns =~= rule.patterns@.map(|i: int, x: Pattern| x@));
    }
    Ok((rule, w))
}

/// Whether a decoded artifact is well-formed: pattern byte strings are
/// non-empty, metadata keys are unique per rule, every import names a
/// built-in module, and the rule space fits `u32`.
fn wf_check(m: &CompiledRules) -> (res: bool)
    ensures
        res == m@.wf(),
{
    let nrules = m.rules.len();
    if nrules > u32::MAX as usize {
        return false;
    }
    for i in 0..nrules
        invariant
            nrules == m.rules@.len(),
            forall|j: int| 0 <= j < i ==> (#[trigger] m@.rules[j]).wf(),
    {
        proof {
            assert(m@.rules[i as int] == m.rules@[i as int]@);
        }
        let rule = &m.rules[i];
        let npat = rule.patterns.len();
        for k in 0..npat
            invariant
                nrules == m.rules@.len(),
                i < nrules,
                m@.rules[i as int] == m.rules@[i as int]@,
                rule == &m.rules@[i as int],
                npat == rule.patterns@.len(),
                forall|j: int|
                    0 <= j < k ==> (#[trigger] rule@.patterns[j]).bytes.len() > 0,
        {
            proof {
                assert(rule@.patterns[k as int] == rule.patterns@[k as int]@);
            }
            if rule.patterns[k].bytes.len() == 0 {
                proof {
                    assert(!m@.rules[i as int].wf());
                }
                return false;
            }
        }
        let nmeta = rule.metadata.len();
        for a in 0..nmeta
            invariant
                nrules == m.rules@.len(),
                i < nrules,
                m@.rules[i as int] == m.rules@[i as int]@,
                rule == &m.rules@[i as int],
                nmeta == rule.metadata@.len(),
                forall|j: int|
                    0 <= j < nrules && j < i ==> (#[trigger] m@.rules[j]).wf(),
                forall|x: int, y: int|
                    0 <= x < y < a ==> (#[trigger] rule@.metadata[x]).0 != (
                    #[trigger] rule@.metadata[y]).0,
        {
            for b in 0..a
                invariant
                    nrules == m.rules@.len(),
                    i < nrules,
                    m@.rules[i as int] == m.rules@[i as int]@,
                    rule == &m.rules@[i as int],
                    nmeta == rule.metadata@.len(),
                    a < nmeta,
                    forall|y: int|
                        0 <= y < b ==> (#[trigger] rule@.metadata[y]).0 != rule@.metadata[a as int].0,
            {
                proof {
                    assert(rule@.metadata[a as int] == (rule.metadata@[a as int].0@,
                        rule.metadata@[a as int].1@));
                    assert(rule@.metadata[b as int] == (rule.metadata@[b as int].0@,
                        rule.metadata@[b as int].1@));
                }
                let dup = rule.metadata[b].0 == rule.metadata[a].0;
                if dup {
                    proof {
                        assert(!m@.rules[i as int].wf());
                    }
                    return false;
                }
            }
            proof {
                assert forall|x: int, y: int| 0 <= x < y < a + 1 implies (
                #[trigger] rule@.metadata[x]).0 != (#[trigger] rule@.metadata[y]).0 by {
                    if y == a as int {
                        assert(rule@.metadata[x].0 != rule@.metadata[a as int].0);
                    }
                }
            }
        }
        proof {
            assert(m@.rules[i as int].wf());
        }
    }
    let nimp = m.imports.len();
    for i in 0..nimp
        invariant
            nimp == m.imports@.len(),
            nrules == m.rules@.len(),
            nrules <= u32::MAX,
            forall|j: int| 0 <= j < nrules ==> (#[trigger] m@.rules[j]).wf(),
            forall|j: int|
                0 <= j < i ==> crate::rules::is_builtin_module(#[trigger] m@.imports[j]),
    {
        proof {
            assert(m@.imports[i as int] == m.imports@[i as int]@);
        }
        if !crate::modules::is_builtin(&m.imports[i]) {
            return false;
        }
    }
    true
}

impl CompiledRules {
    /// Deserializes an artifact from bytes produced by `serialize`.
    ///
    /// Accepts exactly the byte strings the format decoders accept that
    /// decode to a well-formed artifact — a mismatched version tag,
    /// malformed contents, trailing bytes, or a decoded artifact breaking
    /// the rules' invariants are all errors.
    #[verifier::rlimit(100)]
    #[verifier::spinoff_prover]
    pub fn deserialize(data: &[u8]) -> (r: Result<CompiledRules, SerializationError>)
        ensures
            r is Ok <==> (dec_artifact(data@) is Some && dec_artifact(data@)->0.wf()),
            r is Ok ==> Some(r->Ok_0@) == dec_artifact(data@),
            r is Ok ==> r->Ok_0@.wf(),
    {
        let (ver, p0) = match rd_u32(data, 0) {
            Ok(v) => v,
            Err(e) => {
                return Err(e);
            },
        };
        if ver != FORMAT_VERSION {
            return Err(SerializationError);
        }
        let (nrules, p1) = match rd_u32(data, p0) {
            Ok(v) => v,
            Err(e) => {
                return Err(e);
            },
        };
        let ghost rulesfull = dec_list(data@, p1 as int, nrules as int, rule_dec());
        let mut rules: Vec<CompiledRule> = Vec::new();
        let mut p = p1;
        let mut j: u32 = 0;
        proof {
            assert(rules@.map(|i: int, x: CompiledRule| x@) =~= Seq::<CompiledRuleV>::empty());
        }
        while j < nrules
            invariant
                j <= nrules,
                p <= data@.len(),
                dec_u32(data@, 0) == Some((FORMAT_VERSION, p0 as int)),
                dec_u32(data@, p0 as int) == Some((nrules, p1 as int)),
                rulesfull == dec_list(data@, p1 as int, nrules as int, rule_dec()),
                rulesfull == match dec_list(data@, p as int, nrules as int - j as int, rule_dec()) {
                    Some((rest, q)) => Some(
                        (rules@.map(|i: int, x: CompiledRule| x@) + rest, q),
                    ),
                    None => None,
                },
            decreases nrules - j,
        {
            let ghost prevm = rules@.map(|i: int, x: CompiledRule| x@);
            let (rule, p2x) = match rd_rule(data, p) {
                Ok(v) => v,
                Err(e) => {
                    proof {
                        assert(dec_list(data@, p as int, nrules as int - j as int, rule_dec())
                            is None);
                        assert(dec_artifact(data@) is None);
                    }
                    return Err(e);
                },
            };
            rules.push(rule);
            proof {
                let newm = rules@.map(|i: int, x: CompiledRule| x@);
                assert(newm.len() == prevm.len() + 1);
                assert(forall|x: int| 0 <= x < prevm.len() ==> newm[x] == prevm[x]);
                let d = dec_rule(data@, p as int)->0;
                assert(newm[prevm.len() as int] == d.0);
                match dec_list(data@, d.1, nrules as int - j as int - 1, rule_dec()) {
                    Some((rest2, q2)) => {
                        assert(prevm + (Seq::empty().push(d.0) + rest2) =~= newm + rest2);
                    },
                    None => {},
                }
            }
            p = p2x;
            j = j + 1;
        }
        proof {
            assert(dec_list(data@, p as int, 0, rule_dec()) == Some(
                (Seq::<CompiledRuleV>::empty(), p as int),
            ));
            assert(rules@.map(|i: int, x: CompiledRule| x@) + Seq::<CompiledRuleV>::empty()
                =~= rules@.map(|i: int, x: CompiledRule| x@));
        }
        let (nimp, p3) = match rd_u32(data, p) {
            Ok(v) => v,
            Err(e) => {
                return Err(e);
            },
        };
        let ghost impfull = dec_list(data@, p3 as int, nimp as int, string_dec());
        let mut imports: Vec<String> = Vec::new();
        let mut q = p3;
        let mut k: u32 = 0;
        proof {
            assert(imports@.map(|i: int, s: String| s@) =~= Seq::<Seq<char>>::empty());
        }
        while k < nimp
            invariant
                k <= nimp,
                q <= data@.len(),
                dec_u32(data@, 0) == Some((FORMAT_VERSION, p0 as int)),
                dec_u32(data@, p0 as int) == Some((nrules, p1 as int)),
                dec_list(data@, p1 as int, nrules as int, rule_dec()) == Some(
                    (rules@.map(|i: int, x: CompiledRule| x@), p as int),
                ),
                dec_u32(data@, p as int) == Some((nimp, p3 as int)),
                impfull == dec_list(data@, p3 as int, nimp as int, string_dec()),
                impfull == match dec_list(data@, q as int, nimp as int - k as int, string_dec()) {
                    Some((rest, qq)) => Some((imports@.map(|i: int, s: String| s@) + rest, qq)),
                    None => None,
                },
            decreases nimp - k,
        {
            let ghost prevm = imports@.map(|i: int, s: String| s@);
            let (name, q2x) = match rd_string(data, q) {
                Ok(v) => v,
                Err(e) => {
                    proof {
                        assert(dec_list(data@, q as int, nimp as int - k as int, string_dec())
                            is None);
                        assert(dec_artifact(data@) is None);
                    }
                    return Err(e);
                },
            };
            imports.push(name);
            proof {
                let newm = imports@.map(|i: int, s: String| s@);
                assert(newm.len() == prevm.len() + 1);
                assert(forall|x: int| 0 <= x < prevm.len() ==> newm[x] == prevm[x]);
                let d = dec_string(data@, q as int)->0;
                assert(newm[prevm.len() as int] == d.0);
                match dec_list(data@, d.1, nimp as int - k as int - 1, string_dec()) {
                    Some((rest2, q2)) => {
                        assert(prevm + (Seq::empty().push(d.0) + rest2) =~= newm + rest2);
                    },
                    None => {},
                }
            }
            q = q2x;
            k = k + 1;
        }
        proof {
            assert(dec_list(data@, q as int, 0, string_dec()) == Some(
                (Seq::<Seq<char>>::empty(), q as int),
            ));
            assert(imports@.map(|i: int, s: String| s@) + Seq::<Seq<char>>::empty()
                =~= imports@.map(|i: int, s: String| s@));
        }
        if (q as u64) != (data.len() as u64) {
            return Err(SerializationError);
        }
        let out = CompiledRules { rules, imports };
        proof {
            assert(out@.rules =~= out.rules@.map(|i: int, x: CompiledRule| x@));
            assert(out@.imports =~= out.imports@.map(|i: int, s: String| s@));
        }
        if !wf_check(&out) {
            return Err(SerializationError);
        }
        Ok(out)
    }
}

/// Round trip: whatever `serialize` emits decodes to the original
/// artifact, so `deserialize` accepts it and returns an artifact of equal
/// value — which therefore produces identical match sets on every input.
pub proof fn lemma_roundtrip_matches(original: CompiledRulesV, encoded: Seq<u8>, scanned: Seq<u8>)
    requires
        dec_artifact(encoded) == Some(original),
    ensures
        dec_artifact(encoded) is Some,
        crate::rules::matched_rule_ids(dec_artifact(encoded)->0.rules, scanned)
            == crate::rules::matched_rule_ids(original.rules, scanned),
        crate::rules::matched_flags(dec_artifact(encoded)->0.rules, scanned)
            == crate::rules::matched_flags(original.rules, scanned),
{
}

} // verus!
