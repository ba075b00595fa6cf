//! The scan VM: a sandboxed stack-machine evaluator for compiled rule
//! conditions.
//!
//! A condition is a sequence of instructions over a stack of 64-bit
//! integers. The machine reads the `filesize` global and the per-rule
//! pattern-match flags supplied by the host. Execution is total: every
//! program either finishes with exactly one value on the stack (its boolean
//! result) or traps, and `run` says which.

use vstd::prelude::*;

verus! {

/// Comparison operators over 64-bit integers.
#[derive(Clone, Copy, Debug, PartialEq, Eq, Structural)]
pub enum CmpOp {
    Gt,
    Lt,
    Ge,
    Le,
    Eq,
    Ne,
}

/// One bytecode instruction of the condition VM.
#[derive(Clone, Copy, Debug, PartialEq, Eq, Structural)]
pub enum Instr {
    /// Push a constant.
    PushInt(i64),
    /// Push the `filesize` global.
    PushFilesize,
    /// Push 1 when the rule's pattern with this index matched, else 0.
    /// Traps when the index is out of range.
    PushPattern(u32),
    /// Pop `b`, pop `a`, push `a OP b` as 1 or 0.
    Cmp(CmpOp),
    /// Pop `b`, pop `a`, push 1 when both are non-zero.
    And,
    /// Pop `b`, pop `a`, push 1 when either is non-zero.
    Or,
    /// Pop `a`, push 1 when it is zero.
    Not,
}

/// The boolean outcome of a comparison.
pub open spec fn cmp_eval(op: CmpOp, a: i64, b: i64) -> bool {
    match op {
        CmpOp::Gt => a > b,
        CmpOp::Lt => a < b,
        CmpOp::Ge => a >= b,
        CmpOp::Le => a <= b,
        CmpOp::Eq => a == b,
        CmpOp::Ne => a != b,
    }
}

/// Booleans on the stack: 1 for true, 0 for false.
pub open spec fn bool_val(b: bool) -> i64 {
    if b {
        1
    } else {
        0
    }
}

/// Runs `prog` on `stack` under the globals `fsize` and the pattern flags
/// `found`. `None` is a trap: a stack underflow or a pattern index out of
/// range.
pub open spec fn run(prog: Seq<Instr>, fsize: i64, found: Seq<bool>, stack: Seq<i64>) -> Option<
    Seq<i64>,
>
    decreases prog.len(),
{
    if prog.len() == 0 {
        Some(stack)
    } else {
        let rest = prog.drop_first();
        match prog[0] {
            Instr::PushInt(v) => run(rest, fsize, found, stack.push(v)),
            Instr::PushFilesize => run(rest, fsize, found, stack.push(fsize)),
            Instr::PushPattern(k) => if (k as int) < found.len() {
                run(rest, fsize, found, stack.push(bool_val(found[k as int])))
            } else {
                None
            },
            Instr::Cmp(op) => if stack.len() >= 2 {
                let b = stack[stack.len() - 1];
                let a = stack[stack.len() - 2];
                run(
                    rest,
                    fsize,
                    found,
                    stack.drop_last().drop_last().push(bool_val(cmp_eval(op, a, b))),
                )
            } else {
                None
            },
            Instr::And => if stack.len() >= 2 {
                let b = stack[stack.len() - 1];
                let a = stack[stack.len() - 2];
                run(rest, fsize, found, stack.drop_last().drop_last().push(bool_val(a != 0 && b != 0)))
            } else {
                None
            },
            Instr::Or => if stack.len() >= 2 {
                let b = stack[stack.len() - 1];
                let a = stack[stack.len() - 2];
                run(rest, fsize, found, stack.drop_last().drop_last().push(bool_val(a != 0 || b != 0)))
            } else {
                None
            },
            Instr::Not => if stack.len() >= 1 {
                let a = stack[stack.len() - 1];
                run(rest, fsize, found, stack.drop_last().push(bool_val(a == 0)))
            } else {
                None
            },
        }
    }
}

/// The boolean a program computes from an empty stack, or `None` when it
/// traps or finishes with other than one value on the stack.
pub open spec fn eval_prog(prog: Seq<Instr>, fsize: i64, found: Seq<bool>) -> Option<bool> {
    match run(prog, fsize, found, Seq::empty()) {
        Some(st) => if st.len() == 1 {
            Some(st[0] != 0)
        } else {
            None
        },
        None => None,
    }
}

/// A program that never traps and always leaves one value, whatever the
/// filesize and whichever of the rule's `npat` patterns matched.
pub open spec fn total_prog(prog: Seq<Instr>, npat: int) -> bool {
    forall|fsize: i64, found: Seq<bool>|
        found.len() == npat ==> #[trigger] eval_prog(prog, fsize, found) is Some
}

/// Running a concatenation runs the first part, then the second on what the
/// first left behind.
pub proof fn lemma_run_append(p1: Seq<Instr>, p2: Seq<Instr>, fsize: i64, found: Seq<bool>, stack: Seq<i64>)
    ensures
        run(p1 + p2, fsize, found, stack) == match run(p1, fsize, found, stack) {
            Some(st) => run(p2, fsize, found, st),
            None => None,
        },
    decreases p1.len(),
{
    if p1.len() == 0 {
        assert(p1 + p2 =~= p2);
    } else {
        assert((p1 + p2)[0] == p1[0]);
        assert((p1 + p2).drop_first() =~= p1.drop_first() + p2);
        match p1[0] {
            Instr::PushInt(v) => {
                lemma_run_append(p1.drop_first(), p2, fsize, found, stack.push(v));
            },
            Instr::PushFilesize => {
                lemma_run_append(p1.drop_first(), p2, fsize, found, stack.push(fsize));
            },
            Instr::PushPattern(k) => {
                if (k as int) < found.len() {
                    lemma_run_append(
                        p1.drop_first(),
                        p2,
                        fsize,
                        found,
                        stack.push(bool_val(found[k as int])),
                    );
                }
            },
            Instr::Cmp(op) => {
                if stack.len() >= 2 {
                    let b = stack[stack.len() - 1];
                    let a = stack[stack.len() - 2];
                    lemma_run_append(
                        p1.drop_first(),
                        p2,
                        fsize,
                        found,
                        stack.drop_last().drop_last().push(bool_val(cmp_eval(op, a, b))),
                    );
                }
            },
            Instr::And => {
                if stack.len() >= 2 {
                    let b = stack[stack.len() - 1];
                    let a = stack[stack.len() - 2];
                    lemma_run_append(
                        p1.drop_first(),
                        p2,
                        fsize,
                        found,
                        stack.drop_last().drop_last().push(bool_val(a != 0 && b != 0)),
                    );
                }
            },
            Instr::Or => {
                if stack.len() >= 2 {
                    let b = stack[stack.len() - 1];
                    let a = stack[stack.len() - 2];
                    lemma_run_append(
                        p1.drop_first(),
                        p2,
                        fsize,
                        found,
                        stack.drop_last().drop_last().push(bool_val(a != 0 || b != 0)),
                    );
                }
            },
            Instr::Not => {
                if stack.len() >= 1 {
                    let a = stack[stack.len() - 1];
                    lemma_run_append(
                        p1.drop_first(),
                        p2,
                        fsize,
                        found,
                        stack.drop_last().push(bool_val(a == 0)),
                    );
                }
            },
        }
    }
}

/// One pushing instruction runs to a one-longer stack.
pub proof fn lemma_run_push(i: Instr, fsize: i64, found: Seq<bool>, stack: Seq<i64>)
    requires
        i is PushInt || i is PushFilesize || (i is PushPattern && (i->PushPattern_0 as int)
            < found.len()),
    ensures
        run(seq![i], fsize, found, stack) == Some(
            stack.push(
                match i {
                    Instr::PushInt(v) => v,
                    Instr::PushFilesize => fsize,
                    Instr::PushPattern(k) => bool_val(found[k as int]),
                    _ => 0,
                },
            ),
        ),
{
    let rest = seq![i].drop_first();
    assert(rest.len() == 0);
    match i {
        Instr::PushInt(v) => {
            assert(run(rest, fsize, found, stack.push(v)) == Some(stack.push(v)));
        },
        Instr::PushFilesize => {
            assert(run(rest, fsize, found, stack.push(fsize)) == Some(stack.push(fsize)));
        },
        Instr::PushPattern(k) => {
            assert(run(rest, fsize, found, stack.push(bool_val(found[k as int]))) == Some(
                stack.push(bool_val(found[k as int])),
            ));
        },
        _ => {},
    }
}

/// One binary instruction pops two values and pushes its result.
pub proof fn lemma_run_binop(i: Instr, fsize: i64, found: Seq<bool>, stack: Seq<i64>, a: i64, b: i64)
    requires
        i is Cmp || i is And || i is Or,
    ensures
        run(seq![i], fsize, found, stack.push(a).push(b)) == Some(
            stack.push(
                match i {
                    Instr::Cmp(op) => bool_val(cmp_eval(op, a, b)),
                    Instr::And => bool_val(a != 0 && b != 0),
                    Instr::Or => bool_val(a != 0 || b != 0),
                    _ => 0,
                },
            ),
        ),
{
    let st = stack.push(a).push(b);
    let rest = seq![i].drop_first();
    assert(rest.len() == 0);
    assert(st.len() >= 2);
    assert(st[st.len() - 1] == b);
    assert(st[st.len() - 2] == a);
    assert(st.drop_last().drop_last() =~= stack);
    match i {
        Instr::Cmp(op) => {
            assert(run(rest, fsize, found, st.drop_last().drop_last().push(
                bool_val(cmp_eval(op, a, b)),
            )) == Some(stack.push(bool_val(cmp_eval(op, a, b)))));
        },
        Instr::And => {
            assert(run(rest, fsize, found, st.drop_last().drop_last().push(
                bool_val(a != 0 && b != 0),
            )) == Some(stack.push(bool_val(a != 0 && b != 0))));
        },
        Instr::Or => {
            assert(run(rest, fsize, found, st.drop_last().drop_last().push(
                bool_val(a != 0 || b != 0),
            )) == Some(stack.push(bool_val(a != 0 || b != 0))));
        },
        _ => {},
    }
}

/// The negation instruction pops one value and pushes its complement.
pub proof fn lemma_run_not(fsize: i64, found: Seq<bool>, stack: Seq<i64>, a: i64)
    ensures
        run(seq![Instr::Not], fsize, found, stack.push(a)) == Some(stack.push(bool_val(a == 0))),
{
    let st = stack.push(a);
    let rest = seq![Instr::Not].drop_first();
    assert(rest.len() == 0);
    assert(st[st.len() - 1] == a);
    assert(st.drop_last() =~= stack);
    assert(run(rest, fsize, found, st.drop_last().push(bool_val(a == 0))) == Some(
        stack.push(bool_val(a == 0)),
    ));
}

/// Evaluates a compiled condition. `fsize` is the `filesize` global and
/// `found` holds one flag per pattern of the rule. `None` reports a trap.
pub fn eval_program(prog: &Vec<Instr>, fsize: i64, found: &Vec<bool>) -> (r: Option<bool>)
    ensures
        r == eval_prog(prog@, fsize, found@),
{
    let mut stack: Vec<i64> = Vec::new();
    let n = prog.len();
    let mut i: usize = 0;
    proof {
        assert(prog@.skip(0) =~= prog@);
        assert(stack@ =~= Seq::<i64>::empty());
    }
    while i < n
        invariant
            n == prog@.len(),
            i <= n,
            run(prog@.skip(i as int), fsize, found@, stack@) == run(
                prog@,
                fsize,
                found@,
                Seq::empty(),
            ),
        decreases n - i,
    {
        proof {
            assert(prog@.skip(i as int)[0] == prog@[i as int]);
            assert(prog@.skip(i as int).drop_first() =~= prog@.skip(i as int + 1));
        }
        match prog[i] {
            Instr::PushInt(v) => {
                stack.push(v);
            },
            Instr::PushFilesize => {
                stack.push(fsize);
            },
            Instr::PushPattern(k) => {
                if (k as usize) < found.len() {
                    let f = found[k as usize];
                    stack.push(if f {
                        1
                    } else {
                        0
                    });
                } else {
                    return None;
                }
            },
            Instr::Cmp(op) => {
                if stack.len() >= 2 {
                    let b = stack.pop().unwrap();
                    let a = stack.pop().unwrap();
                    let c = match op {
                        CmpOp::Gt => a > b,
                        CmpOp::Lt => a < b,
                        CmpOp::Ge => a >= b,
                        CmpOp::Le => a <= b,
                        CmpOp::Eq => a == b,
                        CmpOp::Ne => a != b,
                    };
                    stack.push(if c {
                        1
                    } else {
                        0
                    });
                } else {
                    return None;
                }
            },
            Instr::And => {
                if stack.len() >= 2 {
                    let b = stack.pop().unwrap();
                    let a = stack.pop().unwrap();
                    stack.push(if a != 0 && b != 0 {
                        1
                    } else {
                        0
                    });
                } else {
                    return None;
                }
            },
            Instr::Or => {
                if stack.len() >= 2 {
                    let b = stack.pop().unwrap();
                    let a = stack.pop().unwrap();
                    stack.push(if a != 0 || b != 0 {
                        1
                    } else {
                        0
                    });
                } else {
                    return None;
                }
            },
            Instr::Not => {
                if stack.len() >= 1 {
                    let a = stack.pop().unwrap();
                    stack.push(if a == 0 {
                        1
                    } else {
                        0
                    });
                } else {
                    return None;
                }
            },
        }
        i = i + 1;
    }
    proof {
        assert(prog@.skip(n as int) =~= Seq::<Instr>::empty());
    }
    if stack.len() == 1 {
        let v = stack[0];
        Some(v != 0)
    } else {
        None
    }
}

} // verus!
