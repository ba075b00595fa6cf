//! The library's laws: what holds of every scan, stated and proved over
//! the same spec functions the public contracts use.

use vstd::prelude::*;
use crate::bitmap::{count_ones, one_indices, zero_indices, lemma_indices_with_upto_props,
    lemma_indices_with_upto_len};
use crate::rules::{CompiledRulesV, CompiledRuleV, RuleId, matched_flags, matched_rule_ids,
    rule_matches, rule_traps, spec_filesize, found_flags};
use crate::vm::{Instr, run, lemma_run_push};

verus! {

/// The match list and the bitmap agree: the bitmap spans the rule space,
/// the list holds exactly the identifiers of the set bits, in ascending
/// order without duplicates, and its length is the bitmap's population
/// count.
pub proof fn lemma_matches_agree(rules: Seq<CompiledRuleV>, data: Seq<u8>)
    requires
        rules.len() <= u32::MAX,
    ensures
        matched_flags(rules, data).len() == rules.len(),
        matched_rule_ids(rules, data).len() == count_ones(matched_flags(rules, data)),
        forall|id: int|
            0 <= id < rules.len() ==> (matched_flags(rules, data)[id] <==> matched_rule_ids(
                rules,
                data,
            ).contains(id as RuleId)),
        forall|k1: int, k2: int|
            0 <= k1 < k2 < matched_rule_ids(rules, data).len() ==> (#[trigger] matched_rule_ids(
                rules,
                data,
            )[k1]) < (#[trigger] matched_rule_ids(rules, data)[k2]),
{
    let bits = matched_flags(rules, data);
    let n = bits.len() as int;
    let ones = one_indices(bits);
    let ids = matched_rule_ids(rules, data);
    lemma_indices_with_upto_props(bits, true, n);
    lemma_indices_with_upto_len(bits, true, n);
    assert(bits.take(n) =~= bits);
    assert(ids.len() == ones.len());
    assert forall|id: int|
        0 <= id < rules.len() implies (bits[id] <==> ids.contains(id as RuleId)) by {
        if bits[id] {
            assert(ones.contains(id as usize));
            let k = choose|k: int| 0 <= k < ones.len() && ones[k] == id as usize;
            assert(ids[k] == id as RuleId);
        }
        if ids.contains(id as RuleId) {
            let k = choose|k: int| 0 <= k < ids.len() && ids[k] == id as RuleId;
            assert(ones[k] < n);
            assert(bits[ones[k] as int] == true);
            assert(ones[k] as int == id);
        }
    }
    assert forall|k1: int, k2: int| 0 <= k1 < k2 < ids.len() implies (#[trigger] ids[k1]) < (
    #[trigger] ids[k2]) by {
        assert(ones[k1] < ones[k2]);
        assert(ones[k2] < n);
    }
}

/// The matching and non-matching identifiers are disjoint and together
/// cover the whole rule space.
pub proof fn lemma_matches_partition(bits: Seq<bool>)
    requires
        bits.len() <= usize::MAX,
    ensures
        forall|i: usize|
            !(#[trigger] one_indices(bits).contains(i) && #[trigger] zero_indices(bits).contains(
                i,
            )),
        forall|i: usize|
            (i as int) < bits.len() ==> (one_indices(bits).contains(i) || zero_indices(
                bits,
            ).contains(i)),
        forall|i: usize| #[trigger] one_indices(bits).contains(i) ==> (i as int) < bits.len(),
        forall|i: usize| #[trigger] zero_indices(bits).contains(i) ==> (i as int) < bits.len(),
{
    let n = bits.len() as int;
    lemma_indices_with_upto_props(bits, true, n);
    lemma_indices_with_upto_props(bits, false, n);
    assert forall|i: usize|
        !(#[trigger] one_indices(bits).contains(i) && #[trigger] zero_indices(bits).contains(
            i,
        )) by {
        if one_indices(bits).contains(i) && zero_indices(bits).contains(i) {
            let k1 = choose|k: int|
                0 <= k < one_indices(bits).len() && one_indices(bits)[k] == i;
            let k2 = choose|k: int|
                0 <= k < zero_indices(bits).len() && zero_indices(bits)[k] == i;
            assert(bits[one_indices(bits)[k1] as int] == true);
            assert(bits[zero_indices(bits)[k2] as int] == false);
        }
    }
    assert forall|i: usize| (i as int) < bits.len() implies (one_indices(bits).contains(i)
        || zero_indices(bits).contains(i)) by {
        if bits[i as int] {
            assert(one_indices(bits).contains(i));
        } else {
            assert(zero_indices(bits).contains(i));
        }
    }
    assert forall|i: usize| #[trigger] one_indices(bits).contains(i) implies (i as int)
        < bits.len() by {
        let k = choose|k: int| 0 <= k < one_indices(bits).len() && one_indices(bits)[k] == i;
        assert(one_indices(bits)[k] < n);
    }
    assert forall|i: usize| #[trigger] zero_indices(bits).contains(i) implies (i as int)
        < bits.len() by {
        let k = choose|k: int| 0 <= k < zero_indices(bits).len() && zero_indices(bits)[k] == i;
        assert(zero_indices(bits)[k] < n);
    }
}

/// Scanning is deterministic: the recorded matches are a function of the
/// rules and the data alone, so scanning the same data twice on the same
/// rules yields identical match lists and bitmaps.
pub proof fn lemma_scan_deterministic(
    rules: Seq<CompiledRuleV>,
    data: Seq<u8>,
    first: Seq<RuleId>,
    second: Seq<RuleId>,
)
    requires
        first == matched_rule_ids(rules, data),
        second == matched_rule_ids(rules, data),
    ensures
        first == second,
{
}

/// A rule whose condition program is the constant-true program matches
/// every input, whatever its patterns find.
pub proof fn lemma_condition_true_always_matches(r: CompiledRuleV, data: Seq<u8>)
    requires
        r.program == seq![Instr::PushInt(1i64)],
    ensures
        rule_matches(r, data),
        !rule_traps(r, data),
{
    let fsize = spec_filesize(data);
    let found = found_flags(r.patterns, data);
    lemma_run_push(Instr::PushInt(1), fsize, found, Seq::empty());
    assert(run(r.program, fsize, found, Seq::empty()) == Some(Seq::<i64>::empty().push(1)));
    assert(Seq::<i64>::empty().push(1)[0] == 1i64);
}

/// A rule whose condition program is the constant-false program matches
/// no input, whatever its patterns find.
pub proof fn lemma_condition_false_never_matches(r: CompiledRuleV, data: Seq<u8>)
    requires
        r.program == seq![Instr::PushInt(0i64)],
    ensures
        !rule_matches(r, data),
        !rule_traps(r, data),
{
    let fsize = spec_filesize(data);
    let found = found_flags(r.patterns, data);
    lemma_run_push(Instr::PushInt(0), fsize, found, Seq::empty());
    assert(run(r.program, fsize, found, Seq::empty()) == Some(Seq::<i64>::empty().push(0)));
    assert(Seq::<i64>::empty().push(0)[0] == 0i64);
}

/// An artifact whose condition programs are all total — as the compiler
/// guarantees of its output — never traps, so a scan of it always
/// succeeds.
pub proof fn lemma_total_artifact_never_traps(m: CompiledRulesV, data: Seq<u8>)
    requires
        m.total(),
    ensures
        forall|i: int| 0 <= i < m.rules.len() ==> !rule_traps(#[trigger] m.rules[i], data),
{
    assert forall|i: int| 0 <= i < m.rules.len() implies !rule_traps(
        #[trigger] m.rules[i],
        data,
    ) by {
        let found = found_flags(m.rules[i].patterns, data);
        assert(found.len() == m.rules[i].patterns.len());
        assert(crate::vm::eval_prog(m.rules[i].program, spec_filesize(data), found) is Some);
    }
}

/// A scan of an empty rule set matches nothing: the match list and the
/// bitmap are both empty.
pub proof fn lemma_empty_rule_set(data: Seq<u8>)
    ensures
        matched_flags(Seq::<CompiledRuleV>::empty(), data).len() == 0,
        matched_rule_ids(Seq::<CompiledRuleV>::empty(), data).len() == 0,
{
    assert(matched_flags(Seq::<CompiledRuleV>::empty(), data).len() == 0);
}

} // verus!
