//! The scan engine: drives one scan of a byte buffer against a compiled
//! rule set and exposes the results.
//!
//! A scan sets the `filesize` global, resets the per-scan state, populates
//! the imported modules' value trees, evaluates every rule's condition
//! program in rule order, and records each match in the bitmap and the
//! match list. The results view borrows the scanner's context.

use vstd::prelude::*;
use crate::bitmap::{Bitmap, bits_of, indices_with_upto, one_indices, zero_indices,
    lemma_indices_with_upto_props};
use crate::matcher::{Match, find_matches, match_seq};
use crate::modules::module_main;
use crate::pool::BStringPool;
use crate::rules::{CompiledRule, CompiledRules, CompiledRulesV, CompiledRuleV, MetaValue,
    RuleId, matched_flags, matched_rule_ids, rule_matches, rule_traps, spec_filesize,
    found_flags};
use crate::values::{RuntimeStruct, RuntimeValue};
use crate::vm::eval_program;

verus! {

/// A scan failed: a rule's condition program trapped in the VM. The
/// scanner stays usable; the next scan resets its state.
#[derive(Debug, Clone, Copy, PartialEq, Eq, Structural)]
pub struct ScanError;

/// The nested view of the per-rule, per-pattern match lists.
pub open spec fn pm_view(v: Seq<Vec<Vec<Match>>>) -> Seq<Seq<Seq<Match>>> {
    v.map(|i: int, a: Vec<Vec<Match>>| a@.map(|j: int, b: Vec<Match>| b@))
}

/// The match lists a scan produces: for each rule, for each of its
/// patterns, the pattern's matches in the data.
pub open spec fn all_matches(rules: Seq<CompiledRuleV>, data: Seq<u8>) -> Seq<Seq<Seq<Match>>> {
    Seq::new(
        rules.len(),
        |i: int| Seq::new(rules[i].patterns.len(), |k: int| match_seq(data, rules[i].patterns[k].bytes)),
    )
}

/// The matching rule identifiers among the first `i` rules, in rule order.
pub open spec fn matched_ids_upto(rules: Seq<CompiledRuleV>, data: Seq<u8>, i: int) -> Seq<RuleId> {
    indices_with_upto(matched_flags(rules, data), true, i).map(|k: int, v: usize| v as RuleId)
}

/// Per-scan mutable state owned by one scanner.
pub struct ScanContext {
    /// Bit `i` is set exactly when rule `i` matched this scan.
    rules_matching_bitmap: Bitmap,
    /// The matching rule identifiers, in the order they were recorded.
    rules_matching: Vec<RuleId>,
    /// Strings interned during this scan; rebuilt empty by each scan.
    string_pool: BStringPool,
    /// Module name to value tree; refreshed each scan.
    root_struct: RuntimeStruct,
    /// For each rule, for each of its patterns, the pattern's matches.
    pattern_matches: Vec<Vec<Vec<Match>>>,
}

impl ScanContext {
    /// The match bitmap's bits.
    pub closed spec fn bits(self) -> Seq<bool> {
        bits_of(self.rules_matching_bitmap)
    }

    /// The recorded matching rule identifiers.
    pub closed spec fn matching(self) -> Seq<RuleId> {
        self.rules_matching@
    }

    /// The per-rule, per-pattern match lists.
    pub closed spec fn pmatches(self) -> Seq<Seq<Seq<Match>>> {
        pm_view(self.pattern_matches@)
    }

    /// The strings interned during the current scan.
    pub closed spec fn pool(self) -> Seq<Seq<u8>> {
        self.string_pool@
    }

    /// The root structure: module name to value tree.
    pub closed spec fn root_v(self) -> RuntimeStruct {
        self.root_struct
    }
}

/// Scans data with already compiled rules, which it borrows for its
/// lifetime.
pub struct Scanner<'r> {
    rules: &'r CompiledRules,
    filesize: i64,
    ctx: ScanContext,
}

/// A scan context fit for a rule set: the bitmap spans the rule space and
/// the match list names real rules.
pub open spec fn ctx_wf(ctx: ScanContext, rules: CompiledRulesV) -> bool {
    &&& ctx.bits().len() == rules.rules.len()
    &&& forall|k: int| 0 <= k < ctx.matching().len() ==> (#[trigger] ctx.matching()[k]) < rules.rules.len()
}

/// A context filled by a finished scan: fit, with one match list per rule,
/// lined up with the rules' patterns.
pub open spec fn ctx_full(ctx: ScanContext, rules: CompiledRulesV) -> bool {
    &&& ctx_wf(ctx, rules)
    &&& ctx.pmatches().len() == rules.rules.len()
    &&& forall|i: int|
        0 <= i < ctx.pmatches().len() ==> (#[trigger] ctx.pmatches()[i]).len()
            == rules.rules[i].patterns.len()
}

impl<'r> Scanner<'r> {
    /// The compiled rules this scanner evaluates.
    pub closed spec fn rules_v(self) -> CompiledRulesV {
        (*self.rules)@
    }

    /// The scanner's per-scan context.
    pub closed spec fn ctx_v(self) -> ScanContext {
        self.ctx
    }

    /// The scanner's invariant: well-formed rules and a fitting context.
    pub open spec fn wf(self) -> bool {
        &&& self.rules_v().wf()
        &&& ctx_wf(self.ctx_v(), self.rules_v())
    }

    /// Creates a scanner for a compiled rule set: an all-zero match bitmap
    /// sized to the rule count, an empty match list, an empty string pool
    /// and an empty root structure.
    pub fn new(compiled_rules: &'r CompiledRules) -> (r: Scanner<'r>)
        requires
            compiled_rules@.wf(),
        ensures
            r.wf(),
            r.rules_v() == compiled_rules@,
            r.ctx_v().matching() == Seq::<RuleId>::empty(),
            r.ctx_v().bits() == Seq::new(compiled_rules@.rules.len(), |i: int| false),
            r.ctx_v().pool() == Seq::<Seq<u8>>::empty(),
            r.ctx_v().pmatches() == Seq::<Seq<Seq<Match>>>::empty(),
            r.ctx_v().root_v().fields() == Seq::<(String, RuntimeValue)>::empty(),
    {
        let n = compiled_rules.rules().len();
        let r = Scanner {
            rules: compiled_rules,
            filesize: 0,
            ctx: ScanContext {
                rules_matching_bitmap: Bitmap::repeat(false, n),
                rules_matching: Vec::new(),
                string_pool: BStringPool::new(),
                root_struct: RuntimeStruct::new(),
                pattern_matches: Vec::new(),
            },
        };
        proof {
            assert(r.ctx_v().pmatches() =~= Seq::<Seq<Seq<Match>>>::empty());
        }
        r
    }

    /// Scans a data buffer.
    ///
    /// Succeeds exactly when no rule's condition traps. On success the
    /// bitmap holds each rule's verdict, the match list holds the matching
    /// identifiers in rule order, and the match lists hold every pattern's
    /// occurrences. A trap aborts the scan; the scanner stays usable.
    pub fn scan<'s>(&'s mut self, data: &[u8]) -> (r: Result<ScanResults<'s, 'r>, ScanError>)
        requires
            old(self).wf(),
            data@.len() <= i64::MAX,
        ensures
            final(self).wf(),
            final(self).rules_v() == old(self).rules_v(),
            r is Ok <==> (forall|i: int|
                0 <= i < old(self).rules_v().rules.len() ==> !rule_traps(
                    #[trigger] old(self).rules_v().rules[i],
                    data@,
                )),
            r is Ok ==> {
                let rl = old(self).rules_v().rules;
                &&& final(self).ctx_v().bits() == matched_flags(rl, data@)
                &&& final(self).ctx_v().matching() == matched_rule_ids(rl, data@)
                &&& final(self).ctx_v().pmatches() == all_matches(rl, data@)
                &&& r->Ok_0.rules_v() == old(self).rules_v()
                &&& r->Ok_0.ctx_v() == final(self).ctx_v()
                &&& r->Ok_0.wf()
            },
            r is Ok ==> {
                let root = final(self).ctx_v().root_v();
                let imps = old(self).rules_v().imports;
                &&& root.wf()
                &&& forall|m: int|
                    0 <= m < imps.len() ==> crate::values::spec_field_index(
                        root.fields(),
                        #[trigger] imps[m],
                    ) >= 0
                &&& forall|k: int|
                    0 <= k < root.fields().len() ==> imps.contains(
                        (#[trigger] root.fields()[k]).0@,
                    ) && crate::modules::spec_module_tree_ok(root.fields()[k].1, data@)
            },
    {
        let ghost rl = self.rules_v().rules;
        let rules_ref: &'r CompiledRules = self.rules;
        let rules_vec: &'r Vec<CompiledRule> = rules_ref.rules();
        let n = rules_vec.len();
        proof {
            assert(rules_vec@.map(|i: int, x: CompiledRule| x@) == rl);
            assert(n == rl.len());
        }
        // Set the `filesize` global to the size of the scanned data.
        self.filesize = data.len() as i64;
        // Reset the per-scan state.
        self.ctx.rules_matching_bitmap.fill(false);
        self.ctx.rules_matching = Vec::new();
        self.ctx.string_pool = BStringPool::new();
        self.ctx.root_struct = RuntimeStruct::new();
        self.ctx.pattern_matches = Vec::new();
        // Populate the imported modules' value trees.
        let imports: &'r Vec<String> = rules_ref.imported_modules();
        let ni = imports.len();
        for m in 0..ni
            invariant
                self.rules == old(self).rules,
                self.wf(),
                self.rules_v().rules == rl,
                self.ctx_v().bits() == Seq::new(rl.len(), |j: int| false),
                ni == imports@.len(),
                imports@.map(|i: int, s: String| s@) == self.rules_v().imports,
                self.ctx.string_pool.wf(),
                self.ctx.root_struct.wf(),
                self.ctx_v().bits().len() == rl.len(),
                self.ctx_v().matching() == Seq::<RuleId>::empty(),
                self.ctx_v().pmatches() == Seq::<Seq<Seq<Match>>>::empty(),
                self.filesize == spec_filesize(data@),
                forall|j: int|
                    0 <= j < m ==> crate::values::spec_field_index(
                        self.ctx_v().root_v().fields(),
                        #[trigger] self.rules_v().imports[j],
                    ) >= 0,
                forall|k: int|
                    0 <= k < self.ctx_v().root_v().fields().len()
                        ==> self.rules_v().imports.contains(
                        (#[trigger] self.ctx_v().root_v().fields()[k]).0@,
                    ) && crate::modules::spec_module_tree_ok(
                        self.ctx_v().root_v().fields()[k].1,
                        data@,
                    ),
        {
            let name = &imports[m];
            proof {
                assert(self.rules_v().imports[m as int] == name@);
            }
            match module_main(name, data, &mut self.ctx.string_pool) {
                Some(tree) => {
                    let ghost pre_fields = self.ctx_v().root_v().fields();
                    let owned_name = name.clone();
                    proof {
                        assert(owned_name@ == name@);
                    }
                    self.ctx.root_struct.insert(owned_name, RuntimeValue::Struct(tree));
                    proof {
                        let new_fields = self.ctx_v().root_v().fields();
                        let f = crate::values::spec_field_index(pre_fields, name@);
                        let imps = self.rules_v().imports;
                        if f >= 0 {
                            crate::values::lemma_field_index_props(pre_fields, name@);
                            assert(pre_fields[f].0@ == name@);
                            assert forall|x: int|
                                0 <= x < pre_fields.len() implies (#[trigger] pre_fields[x]).0@
                                == (#[trigger] new_fields[x]).0@ by {}
                            assert forall|j: int|
                                0 <= j < m + 1 implies crate::values::spec_field_index(
                                new_fields,
                                #[trigger] imps[j],
                            ) >= 0 by {
                                crate::values::lemma_field_index_same_names(
                                    pre_fields,
                                    new_fields,
                                    imps[j],
                                );
                                if j == m as int {
                                    crate::values::lemma_field_index_same_names(
                                        pre_fields,
                                        new_fields,
                                        name@,
                                    );
                                }
                            }
                        } else {
                            assert(new_fields == pre_fields.push(
                                (owned_name, RuntimeValue::Struct(tree)),
                            ));
                            assert forall|j: int|
                                0 <= j < m + 1 implies crate::values::spec_field_index(
                                new_fields,
                                #[trigger] imps[j],
                            ) >= 0 by {
                                crate::values::lemma_field_index_props(new_fields, imps[j]);
                                if j == m as int {
                                    assert(new_fields[pre_fields.len() as int].0@ == name@);
                                } else {
                                    crate::values::lemma_field_index_props(
                                        pre_fields,
                                        imps[j],
                                    );
                                    let w = crate::values::spec_field_index(
                                        pre_fields,
                                        imps[j],
                                    );
                                    assert(new_fields[w].0@ == imps[j]);
                                }
                            }
                        }
                        assert forall|k: int|
                            0 <= k < new_fields.len() implies imps.contains(
                            (#[trigger] new_fields[k]).0@,
                        ) && crate::modules::spec_module_tree_ok(new_fields[k].1, data@) by {
                            if f >= 0 && k == f {
                                assert(new_fields[k].0@ == name@);
                                assert(imps[m as int] == name@);
                            } else if f < 0 && k == pre_fields.len() as int {
                                assert(new_fields[k].0@ == name@);
                                assert(imps[m as int] == name@);
                            } else {
                                assert(new_fields[k] == pre_fields[k]);
                            }
                        }
                    }
                },
                None => {
                    proof {
                        assert(crate::rules::is_builtin_module(name@));
                        assert(false);
                    }
                },
            }
        }
        let ghost rootsnap = self.ctx_v().root_v();
        proof {
            assert forall|j: int|
                0 <= j < self.rules_v().imports.len() implies crate::values::spec_field_index(
                rootsnap.fields(),
                #[trigger] self.rules_v().imports[j],
            ) >= 0 by {}
        }
        // Evaluate every rule's condition, in rule order.
        let mut pmatches: Vec<Vec<Vec<Match>>> = Vec::new();
        let ghost flags_full = matched_flags(rl, data@);
        proof {
            assert(self.ctx_v().bits() =~= Seq::new(rl.len(), |j: int| false));
            assert(self.ctx_v().bits() =~= Seq::new(
                rl.len(),
                |j: int| 0 <= j < 0 && flags_full[j],
            ));
            assert(self.ctx_v().matching() =~= matched_ids_upto(rl, data@, 0));
            assert(pm_view(pmatches@) =~= Seq::<Seq<Seq<Match>>>::empty());
        }
        for i in 0..n
            invariant
                self.rules == old(self).rules,
                self.rules_v() == old(self).rules_v(),
                self.rules_v().rules == rl,
                self.rules_v().wf(),
                self.ctx_v().root_v() == rootsnap,
                rootsnap.wf(),
                forall|j: int|
                    0 <= j < self.rules_v().imports.len() ==> crate::values::spec_field_index(
                        rootsnap.fields(),
                        #[trigger] self.rules_v().imports[j],
                    ) >= 0,
                forall|k: int|
                    0 <= k < rootsnap.fields().len() ==> self.rules_v().imports.contains(
                        (#[trigger] rootsnap.fields()[k]).0@,
                    ) && crate::modules::spec_module_tree_ok(rootsnap.fields()[k].1, data@),
                n == rl.len(),
                n <= u32::MAX,
                rules_vec@.map(|x: int, c: CompiledRule| c@) == rl,
                data@.len() <= i64::MAX,
                self.filesize == spec_filesize(data@),
                flags_full == matched_flags(rl, data@),
                self.ctx_v().bits() == Seq::new(rl.len(), |j: int| 0 <= j < i && flags_full[j]),
                self.ctx_v().matching() == matched_ids_upto(rl, data@, i as int),
                pm_view(pmatches@) == all_matches(rl, data@).take(i as int),
                forall|j: int| 0 <= j < i ==> !rule_traps(#[trigger] rl[j], data@),
        {
            let rule = &rules_vec[i];
            proof {
                assert(rule@ == rl[i as int]);
            }
            // Search the rule's patterns in the data.
            let np = rule.patterns.len();
            let mut rm: Vec<Vec<Match>> = Vec::new();
            let mut found: Vec<bool> = Vec::new();
            proof {
                assert(rule@.patterns.len() == np);
            }
            for k in 0..np
                invariant
                    rule@ == rl[i as int],
                    0 <= i < rl.len(),
                    rl[i as int].wf(),
                    np == rule@.patterns.len(),
                    found@ == found_flags(rl[i as int].patterns, data@).take(k as int),
                    rm@.map(|x: int, b: Vec<Match>| b@) == Seq::new(
                        np as nat,
                        |kk: int| match_seq(data@, rl[i as int].patterns[kk].bytes),
                    ).take(k as int),
            {
                let pat = &rule.patterns[k];
                proof {
                    assert(pat@ == rl[i as int].patterns[k as int]);
                    assert(pat@.bytes.len() > 0);
                }
                let ms = find_matches(data, pat.bytes.as_slice());
                found.push(ms.len() > 0);
                let ghost prevrm = rm@.map(|x: int, b: Vec<Match>| b@);
                rm.push(ms);
                proof {
                    assert(found@ =~= found_flags(rl[i as int].patterns, data@).take(k as int + 1));
                    let newrm = rm@.map(|x: int, b: Vec<Match>| b@);
                    assert(newrm.len() == prevrm.len() + 1);
                    assert(forall|x: int| 0 <= x < prevrm.len() ==> newrm[x] == prevrm[x]);
                    assert(newrm[k as int] =~= match_seq(data@, rl[i as int].patterns[k as int].bytes));
                    assert(newrm =~= Seq::new(
                        np as nat,
                        |kk: int| match_seq(data@, rl[i as int].patterns[kk].bytes),
                    ).take(k as int + 1));
                }
            }
            proof {
                assert(found@ =~= found_flags(rl[i as int].patterns, data@));
            }
            // Run the condition program.
            let verdict = eval_program(&rule.program, self.filesize, &found);
            match verdict {
                None => {
                    proof {
                        assert(rule_traps(rl[i as int], data@));
                        lemma_indices_with_upto_props(flags_full, true, i as int);
                        assert forall|k: int|
                            0 <= k < self.ctx_v().matching().len() implies (
                        #[trigger] self.ctx_v().matching()[k]) < rl.len() by {
                            assert(indices_with_upto(flags_full, true, i as int)[k] < i);
                        }
                    }
                    return Err(ScanError);
                },
                Some(matched) => {
                    proof {
                        assert(matched == rule_matches(rl[i as int], data@));
                        assert(flags_full[i as int] == matched);
                    }
                    if matched {
                        let ghost prebits = self.ctx_v().bits();
                        let ghost prelist = self.ctx_v().matching();
                        self.ctx.rules_matching_bitmap.set(i, true);
                        self.ctx.rules_matching.push(i as u32);
                        proof {
                            assert(self.ctx_v().bits() =~= Seq::new(
                                rl.len(),
                                |j: int| 0 <= j < i + 1 && flags_full[j],
                            ));
                            assert(indices_with_upto(flags_full, true, i as int + 1)
                                == indices_with_upto(flags_full, true, i as int) + seq![
                                i as usize,
                            ]);
                            assert(self.ctx_v().matching() =~= matched_ids_upto(
                                rl,
                                data@,
                                i as int + 1,
                            ));
                        }
                    } else {
                        proof {
                            assert(self.ctx_v().bits() =~= Seq::new(
                                rl.len(),
                                |j: int| 0 <= j < i + 1 && flags_full[j],
                            ));
                            assert(indices_with_upto(flags_full, true, i as int + 1)
                                == indices_with_upto(flags_full, true, i as int));
                            assert(self.ctx_v().matching() =~= matched_ids_upto(
                                rl,
                                data@,
                                i as int + 1,
                            ));
                        }
                    }
                },
            }
            let ghost prevpm = pm_view(pmatches@);
            pmatches.push(rm);
            proof {
                let newpm = pm_view(pmatches@);
                assert(newpm.len() == prevpm.len() + 1);
                assert(forall|x: int| 0 <= x < prevpm.len() ==> newpm[x] == prevpm[x]);
                assert(newpm[i as int] =~= all_matches(rl, data@)[i as int]);
                assert(newpm =~= all_matches(rl, data@).take(i as int + 1));
            }
        }
        self.ctx.pattern_matches = pmatches;
        proof {
            assert(self.ctx_v().bits() =~= matched_flags(rl, data@));
            assert(self.ctx_v().matching() =~= matched_rule_ids(rl, data@));
            assert(self.ctx_v().pmatches() =~= all_matches(rl, data@));
            lemma_indices_with_upto_props(flags_full, true, rl.len() as int);
            assert forall|k: int| 0 <= k < self.ctx_v().matching().len() implies (
            #[trigger] self.ctx_v().matching()[k]) < rl.len() by {
                assert(one_indices(flags_full)[k] < rl.len());
            }
        }
        Ok(ScanResults { rules: rules_ref, ctx: &self.ctx })
    }
}

/// Results of a scan operation, borrowing the scanner's context.
pub struct ScanResults<'s, 'r> {
    rules: &'r CompiledRules,
    ctx: &'s ScanContext,
}

impl<'s, 'r> ScanResults<'s, 'r> {
    /// The compiled rules the scan evaluated.
    pub closed spec fn rules_v(self) -> CompiledRulesV {
        (*self.rules)@
    }

    /// The scan context the view reads.
    pub closed spec fn ctx_v(self) -> ScanContext {
        *self.ctx
    }

    /// The view is consistent: a finished scan's context fits the rules.
    pub open spec fn wf(self) -> bool {
        ctx_full(self.ctx_v(), self.rules_v())
    }

    /// The number of rules that matched.
    pub fn matching_rules(&self) -> (r: usize)
        ensures
            r == self.ctx_v().matching().len(),
    {
        self.ctx.rules_matching.len()
    }

    /// An iterator over the matching rules, in the order they were
    /// recorded.
    pub fn iter(&self) -> (r: IterMatches<'s, 'r>)
        requires
            self.wf(),
        ensures
            r.wf(),
            r.rules_v() == self.rules_v(),
            r.ctx_v() == self.ctx_v(),
            r.pos_v() == 0,
    {
        IterMatches { rules: self.rules, ctx: self.ctx, pos: 0 }
    }

    /// An iterator over the non-matching rules: the bitmap's zero bits in
    /// ascending order, each projected to its rule.
    pub fn iter_non_matches(&self) -> (r: IterNonMatches<'s, 'r>)
        requires
            self.wf(),
        ensures
            r.wf(),
            r.rules_v() == self.rules_v(),
            r.ctx_v() == self.ctx_v(),
            r.zeros_v() == zero_indices(self.ctx_v().bits()),
            r.pos_v() == 0,
    {
        let nbits = self.ctx.rules_matching_bitmap.len();
        let zeros = self.ctx.rules_matching_bitmap.zeros();
        proof {
            assert(self.ctx_v().bits().len() == nbits);
            lemma_indices_with_upto_props(self.ctx_v().bits(), false, nbits as int);
        }
        IterNonMatches { rules: self.rules, ctx: self.ctx, zeros, pos: 0 }
    }
}

/// One rule of the results: its compiled definition plus the matches its
/// patterns had in the scanned data.
pub struct Rule<'s, 'r> {
    def: &'r CompiledRule,
    matches: &'s Vec<Vec<Match>>,
}

impl<'s, 'r> Rule<'s, 'r> {
    /// The rule's compiled definition.
    pub closed spec fn def_v(self) -> CompiledRuleV {
        (*self.def)@
    }

    /// The per-pattern match lists of this scan.
    pub closed spec fn matches_v(self) -> Seq<Seq<Match>> {
        self.matches@.map(|j: int, b: Vec<Match>| b@)
    }

    /// One match list per pattern.
    pub open spec fn wf(self) -> bool {
        self.matches_v().len() == self.def_v().patterns.len()
    }

    /// The rule's identifier.
    pub fn identifier(&self) -> (r: &'r str)
        ensures
            r@ == self.def_v().identifier,
    {
        self.def.identifier.as_str()
    }

    /// The rule's namespace; empty for the default namespace.
    pub fn namespace(&self) -> (r: &'r str)
        ensures
            r@ == self.def_v().namespace,
    {
        self.def.namespace.as_str()
    }

    /// The rule's metadata entries, in declaration order.
    pub fn metadata(&self) -> (r: &'r Vec<(String, MetaValue)>)
        ensures
            r@.map(|j: int, kv: (String, MetaValue)| (kv.0@, kv.1@)) == self.def_v().metadata,
    {
        &self.def.metadata
    }

    /// How many patterns the rule declares.
    pub fn num_patterns(&self) -> (r: usize)
        requires
            self.wf(),
        ensures
            r == self.def_v().patterns.len(),
    {
        self.def.patterns.len()
    }

    /// The identifier of the pattern at `k`.
    pub fn pattern_identifier(&self, k: usize) -> (r: &'r str)
        requires
            self.wf(),
            k < self.def_v().patterns.len(),
        ensures
            r@ == self.def_v().patterns[k as int].identifier,
    {
        self.def.patterns[k].identifier.as_str()
    }

    /// The matches the pattern at `k` had in the scanned data.
    pub fn pattern_matches(&self, k: usize) -> (r: &'s Vec<Match>)
        requires
            self.wf(),
            k < self.def_v().patterns.len(),
        ensures
            r@ == self.matches_v()[k as int],
    {
        &self.matches[k]
    }
}

/// Iterator over the matching rules, in recorded order; single pass.
pub struct IterMatches<'s, 'r> {
    rules: &'r CompiledRules,
    ctx: &'s ScanContext,
    pos: usize,
}

impl<'s, 'r> IterMatches<'s, 'r> {
    /// The compiled rules.
    pub closed spec fn rules_v(self) -> CompiledRulesV {
        (*self.rules)@
    }

    /// The scan context.
    pub closed spec fn ctx_v(self) -> ScanContext {
        *self.ctx
    }

    /// How many matches were already yielded.
    pub closed spec fn pos_v(self) -> int {
        self.pos as int
    }

    /// The context is a finished scan's and fits the rules.
    pub open spec fn wf(self) -> bool {
        ctx_full(self.ctx_v(), self.rules_v())
    }

    /// The next matching rule, or nothing once all were yielded.
    pub fn next(&mut self) -> (r: Option<Rule<'s, 'r>>)
        requires
            old(self).wf(),
        ensures
            final(self).wf(),
            final(self).rules_v() == old(self).rules_v(),
            final(self).ctx_v() == old(self).ctx_v(),
            old(self).pos_v() < old(self).ctx_v().matching().len() ==> {
                let id = old(self).ctx_v().matching()[old(self).pos_v()] as int;
                &&& r is Some
                &&& final(self).pos_v() == old(self).pos_v() + 1
                &&& r->0.def_v() == old(self).rules_v().rules[id]
                &&& r->0.matches_v() == old(self).ctx_v().pmatches()[id]
                &&& r->0.wf()
            },
            old(self).pos_v() >= old(self).ctx_v().matching().len() ==> r is None && *final(self)
                == *old(self),
    {
        if self.pos < self.ctx.rules_matching.len() {
            let id = self.ctx.rules_matching[self.pos];
            proof {
                assert(id == self.ctx_v().matching()[self.pos as int]);
                assert((id as int) < self.rules_v().rules.len());
                assert(self.rules_v().rules.len() == (*self.rules).rules@.len());
                assert(self.ctx_v().pmatches().len() == (*self.ctx).pattern_matches@.len());
            }
            self.pos = self.pos + 1;
            let def = &self.rules.rules[id as usize];
            let matches = &self.ctx.pattern_matches[id as usize];
            proof {
                assert(def@ == self.rules_v().rules[id as int]);
                assert(matches@.map(|j: int, b: Vec<Match>| b@) == self.ctx_v().pmatches()[id as int]);
            }
            Some(Rule { def, matches })
        } else {
            None
        }
    }
}

/// Iterator over the non-matching rules: the bitmap's zero bits in
/// ascending order, each projected to its rule; single pass.
pub struct IterNonMatches<'s, 'r> {
    rules: &'r CompiledRules,
    ctx: &'s ScanContext,
    zeros: Vec<usize>,
    pos: usize,
}

impl<'s, 'r> IterNonMatches<'s, 'r> {
    /// The compiled rules.
    pub closed spec fn rules_v(self) -> CompiledRulesV {
        (*self.rules)@
    }

    /// The scan context.
    pub closed spec fn ctx_v(self) -> ScanContext {
        *self.ctx
    }

    /// The zero-bit positions this iterator walks.
    pub closed spec fn zeros_v(self) -> Seq<usize> {
        self.zeros@
    }

    /// How many non-matches were already yielded.
    pub closed spec fn pos_v(self) -> int {
        self.pos as int
    }

    /// The context is a finished scan's, and the walked positions are the
    /// bitmap's zero bits.
    pub open spec fn wf(self) -> bool {
        &&& ctx_full(self.ctx_v(), self.rules_v())
        &&& self.zeros_v() == zero_indices(self.ctx_v().bits())
        &&& forall|k: int|
            0 <= k < self.zeros_v().len() ==> (#[trigger] self.zeros_v()[k])
                < self.rules_v().rules.len()
    }

    /// The next non-matching rule, or nothing once all were yielded.
    pub fn next(&mut self) -> (r: Option<Rule<'s, 'r>>)
        requires
            old(self).wf(),
        ensures
            final(self).wf(),
            final(self).rules_v() == old(self).rules_v(),
            final(self).ctx_v() == old(self).ctx_v(),
            old(self).pos_v() < old(self).zeros_v().len() ==> {
                let id = old(self).zeros_v()[old(self).pos_v()] as int;
                &&& r is Some
                &&& final(self).pos_v() == old(self).pos_v() + 1
                &&& r->0.def_v() == old(self).rules_v().rules[id]
                &&& r->0.matches_v() == old(self).ctx_v().pmatches()[id]
                &&& r->0.wf()
            },
            old(self).pos_v() >= old(self).zeros_v().len() ==> r is None && *final(self) == *old(
                self,
            ),
    {
        if self.pos < self.zeros.len() {
            let id = self.zeros[self.pos];
            self.pos = self.pos + 1;
            proof {
                assert((id as int) < self.rules_v().rules.len());
                assert(self.rules_v().rules.len() == (*self.rules).rules@.len());
                assert(self.ctx_v().pmatches().len() == (*self.ctx).pattern_matches@.len());
            }
            let def = &self.rules.rules[id];
            let matches = &self.ctx.pattern_matches[id];
            proof {
                assert(def@ == self.rules_v().rules[id as int]);
                assert(matches@.map(|j: int, b: Vec<Match>| b@) == self.ctx_v().pmatches()[id as int]);
            }
            Some(Rule { def, matches })
        } else {
            None
        }
    }
}

} // verus!
