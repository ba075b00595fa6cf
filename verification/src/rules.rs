//! The compiled-rules artifact: an ordered list of rules, each with
//! identifier, namespace, metadata, patterns and a condition program, plus
//! the list of imported module names.
//!
//! A rule's identifier is its dense 32-bit `RuleId`: its index in the list.

use vstd::prelude::*;
use crate::matcher::pattern_found;
use crate::vm::{Instr, eval_prog, total_prog};
use crate::bitmap::one_indices;

verus! {

/// Dense index of a rule within `CompiledRules`.
pub type RuleId = u32;

/// A metadata value attached to a rule.
#[derive(Debug, Clone, PartialEq, Eq)]
pub enum MetaValue {
    /// A 64-bit signed integer.
    Int(i64),
    /// The IEEE-754 bit pattern of a 64-bit float, kept as bits so the
    /// artifact stays byte-exact.
    FloatBits(u64),
    /// A boolean.
    Bool(bool),
    /// A UTF-8 string.
    Str(String),
    /// Raw bytes.
    Bytes(Vec<u8>),
}

/// The mathematical value of a metadata entry.
pub ghost enum MetaValueV {
    Int(i64),
    FloatBits(u64),
    Bool(bool),
    Str(Seq<char>),
    Bytes(Seq<u8>),
}

impl View for MetaValue {
    type V = MetaValueV;

    open spec fn view(&self) -> MetaValueV {
        match self {
            MetaValue::Int(v) => MetaValueV::Int(*v),
            MetaValue::FloatBits(v) => MetaValueV::FloatBits(*v),
            MetaValue::Bool(v) => MetaValueV::Bool(*v),
            MetaValue::Str(s) => MetaValueV::Str(s@),
            MetaValue::Bytes(b) => MetaValueV::Bytes(b@),
        }
    }
}

/// A named byte-string pattern of a rule.
#[derive(Debug, Clone, PartialEq, Eq)]
pub struct Pattern {
    /// The pattern's identifier, e.g. `$a`.
    pub identifier: String,
    /// The literal byte string the pattern searches for; never empty.
    pub bytes: Vec<u8>,
}

/// The mathematical value of a pattern.
pub ghost struct PatternV {
    pub identifier: Seq<char>,
    pub bytes: Seq<u8>,
}

impl View for Pattern {
    type V = PatternV;

    open spec fn view(&self) -> PatternV {
        PatternV { identifier: self.identifier@, bytes: self.bytes@ }
    }
}

/// One compiled rule.
#[derive(Debug, Clone, PartialEq, Eq)]
pub struct CompiledRule {
    /// The rule's UTF-8 identifier.
    pub identifier: String,
    /// The rule's UTF-8 namespace; empty for the default namespace.
    pub namespace: String,
    /// Ordered metadata entries; keys are unique within a rule.
    pub metadata: Vec<(String, MetaValue)>,
    /// Ordered patterns; condition instructions refer to them by index.
    pub patterns: Vec<Pattern>,
    /// The compiled condition program.
    pub program: Vec<Instr>,
}

/// The mathematical value of a compiled rule.
pub ghost struct CompiledRuleV {
    pub identifier: Seq<char>,
    pub namespace: Seq<char>,
    pub metadata: Seq<(Seq<char>, MetaValueV)>,
    pub patterns: Seq<PatternV>,
    pub program: Seq<Instr>,
}

impl View for CompiledRule {
    type V = CompiledRuleV;

    open spec fn view(&self) -> CompiledRuleV {
        CompiledRuleV {
            identifier: self.identifier@,
            namespace: self.namespace@,
            metadata: self.metadata@.map(|i: int, kv: (String, MetaValue)| (kv.0@, kv.1@)),
            patterns: self.patterns@.map(|i: int, p: Pattern| p@),
            program: self.program@,
        }
    }
}

impl CompiledRuleV {
    /// Well-formedness: patterns are non-empty byte strings and metadata
    /// keys are unique within the rule.
    pub open spec fn wf(self) -> bool {
        &&& forall|k: int| 0 <= k < self.patterns.len() ==> (#[trigger] self.patterns[k]).bytes.len() > 0
        &&& forall|i: int, j: int|
            0 <= i < j < self.metadata.len() ==> (#[trigger] self.metadata[i]).0 != (
            #[trigger] self.metadata[j]).0
    }
}

/// A module name the scanner knows how to populate.
pub open spec fn is_builtin_module(name: Seq<char>) -> bool {
    name == "olecf"@
}

/// A set of compiled rules: the opaque, serializable artifact the scanner
/// consumes.
#[derive(Debug, Clone, PartialEq, Eq)]
pub struct CompiledRules {
    /// The rules, in `RuleId` order.
    pub rules: Vec<CompiledRule>,
    /// The imported module names.
    pub imports: Vec<String>,
}

/// The mathematical value of a compiled-rules artifact.
pub ghost struct CompiledRulesV {
    pub rules: Seq<CompiledRuleV>,
    pub imports: Seq<Seq<char>>,
}

impl View for CompiledRules {
    type V = CompiledRulesV;

    open spec fn view(&self) -> CompiledRulesV {
        CompiledRulesV {
            rules: self.rules@.map(|i: int, r: CompiledRule| r@),
            imports: self.imports@.map(|i: int, s: String| s@),
        }
    }
}

impl CompiledRulesV {
    /// Well-formedness: the rule-identifier space is dense within `u32`,
    /// every rule is well-formed, and every import names a built-in module.
    pub open spec fn wf(self) -> bool {
        &&& self.rules.len() <= u32::MAX
        &&& forall|i: int| 0 <= i < self.rules.len() ==> (#[trigger] self.rules[i]).wf()
        &&& forall|m: int| 0 <= m < self.imports.len() ==> is_builtin_module(#[trigger] self.imports[m])
    }

    /// Every condition program finishes cleanly on every input: none traps.
    pub open spec fn total(self) -> bool {
        forall|i: int|
            0 <= i < self.rules.len() ==> total_prog(
                (#[trigger] self.rules[i]).program,
                self.rules[i].patterns.len() as int,
            )
    }
}

impl CompiledRules {
    /// The compiled rules, in `RuleId` order.
    pub fn rules(&self) -> (r: &Vec<CompiledRule>)
        ensures
            r@.map(|i: int, x: CompiledRule| x@) == self@.rules,
    {
        &self.rules
    }

    /// The names of the modules the rules import.
    pub fn imported_modules(&self) -> (r: &Vec<String>)
        ensures
            r@.map(|i: int, s: String| s@) == self@.imports,
    {
        &self.imports
    }
}

/// The `filesize` global for a scanned buffer.
pub open spec fn spec_filesize(data: Seq<u8>) -> i64 {
    data.len() as i64
}

/// One flag per pattern of a rule: whether it occurs in the data.
pub open spec fn found_flags(patterns: Seq<PatternV>, data: Seq<u8>) -> Seq<bool> {
    Seq::new(patterns.len(), |k: int| pattern_found(data, patterns[k].bytes))
}

/// Whether a rule's condition evaluates to true on the data.
pub open spec fn rule_matches(r: CompiledRuleV, data: Seq<u8>) -> bool {
    eval_prog(r.program, spec_filesize(data), found_flags(r.patterns, data)) == Some(true)
}

/// Whether a rule's condition traps on the data.
pub open spec fn rule_traps(r: CompiledRuleV, data: Seq<u8>) -> bool {
    eval_prog(r.program, spec_filesize(data), found_flags(r.patterns, data)) is None
}

/// The per-rule match flags for a whole artifact.
pub open spec fn matched_flags(rules: Seq<CompiledRuleV>, data: Seq<u8>) -> Seq<bool> {
    Seq::new(rules.len(), |i: int| rule_matches(rules[i], data))
}

/// The matching rule identifiers, in ascending (evaluation) order.
pub open spec fn matched_rule_ids(rules: Seq<CompiledRuleV>, data: Seq<u8>) -> Seq<RuleId> {
    one_indices(matched_flags(rules, data)).map(|i: int, v: usize| v as RuleId)
}

} // verus!
