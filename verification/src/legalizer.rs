//! Legalization: rewriting each instruction, by itself, into a shape that
//! the target can realize directly.
//!
//! Arithmetic on two literals is folded, an addition with one literal
//! becomes an add-immediate, and the literal of a subtraction is
//! materialized into a fresh temporary. No rule looks beyond the operands of
//! the instruction it rewrites.

use vstd::prelude::*;
use crate::errors::Fault;
use crate::instructions::{
    control_flow, is_control, lemma_control_flow_add, lemma_control_flow_empty,
    lemma_control_flow_push, lemma_push_within, lemma_widen_within, mentions_temp, operands,
    operands_within, temps_within, value_within, Instr, Value,
};

verus! {

/// The greater of `bound` and the id of `value`, if it is a temporary.
pub open spec fn raise(bound: nat, value: Value) -> nat {
    match value {
        Value::Temp(id) => if id > bound {
            id as nat
        } else {
            bound
        },
        _ => bound,
    }
}

/// The greatest id of a temporary among the operands of `instr`, or
/// `bound` if that is greater.
pub open spec fn raise_by_instr(bound: nat, instr: Instr) -> nat {
    operands(instr).fold_left(bound, |b: nat, v: Value| raise(b, v))
}

/// The greatest id of a temporary among the operands of the first `count`
/// instructions; 0 where they name none.
pub open spec fn max_temp(instrs: Seq<Instr>, count: nat) -> nat
    decreases count,
{
    if count == 0 {
        0
    } else {
        raise_by_instr(max_temp(instrs, (count - 1) as nat), instrs[count - 1])
    }
}

/// Whether rewriting `instr` takes a fresh temporary: it is a subtraction
/// with exactly one literal operand.
pub open spec fn needs_temp(instr: Instr) -> bool {
    instr matches Instr::Sub { lhs, rhs, .. } && (lhs is Const) != (rhs is Const)
}

/// What `instr` is rewritten to, with `temp` as the temporary to use where
/// one is needed.
///
/// | instruction                       | rewritten to                       |
/// |-----------------------------------|------------------------------------|
/// | `Move(Var, Const v)`              | `Immediate(dst, v)`                |
/// | `Add(dst, Const a, Const b)`      | `Immediate(dst, Const(a + b))`     |
/// | `Add(dst, x, Const c)` or swapped | `AddImmediate(dst, x, c)`          |
/// | `Sub(dst, Const a, Const b)`      | `Immediate(dst, Const(a - b))`     |
/// | `Sub(dst, x, Const c)` or swapped | `Immediate(temp, c)`, `Sub(dst, x, temp)` |
/// | anything else                     | itself                             |
///
/// Sums and differences of literals wrap around in 32 bits.
///
/// A subtraction with one literal always subtracts the literal from the
/// other operand, on whichever side the literal stood: `c - x` is rewritten
/// as `x - c` is, and so computes the negative of what was written.
pub open spec fn rewrite(instr: Instr, temp: Value) -> Seq<Instr> {
    match instr {
        Instr::Move { dst, src } => if dst is Var && src is Const {
            seq![Instr::Immediate { dst: dst, value: src }]
        } else {
            seq![instr]
        },
        Instr::Add { dst, lhs, rhs } => match (lhs, rhs) {
            (Value::Const(l), Value::Const(r)) => seq![
                Instr::Immediate { dst: dst, value: Value::Const(l.wrapping_add(r)) },
            ],
            (_, Value::Const(c)) => seq![Instr::AddImmediate { dst: dst, lhs: lhs, imm: c }],
            (Value::Const(c), _) => seq![Instr::AddImmediate { dst: dst, lhs: rhs, imm: c }],
            _ => seq![instr],
        },
        Instr::Sub { dst, lhs, rhs } => match (lhs, rhs) {
            (Value::Const(l), Value::Const(r)) => seq![
                Instr::Immediate { dst: dst, value: Value::Const(l.wrapping_sub(r)) },
            ],
            (_, Value::Const(c)) => seq![
                Instr::Immediate { dst: temp, value: Value::Const(c) },
                Instr::Sub { dst: dst, lhs: lhs, rhs: temp },
            ],
            (Value::Const(c), _) => seq![
                Instr::Immediate { dst: temp, value: Value::Const(c) },
                Instr::Sub { dst: dst, lhs: rhs, rhs: temp },
            ],
            _ => seq![instr],
        },
        _ => seq![instr],
    }
}

/// A legalized sequence, and the id that the next fresh temporary gets.
pub struct Legalized {
    pub instrs: Seq<Instr>,
    pub next_temp: nat,
}

/// Legalizes the first `count` instructions of `instrs` in order, drawing
/// fresh temporaries from `next_temp` upwards. It fails where a temporary is
/// needed and every id that fits in 32 bits is used up.
pub open spec fn legalize(instrs: Seq<Instr>, count: nat, next_temp: nat) -> Result<
    Legalized,
    Fault,
>
    decreases count,
{
    if count == 0 {
        Ok(Legalized { instrs: Seq::empty(), next_temp: next_temp })
    } else {
        match legalize(instrs, (count - 1) as nat, next_temp) {
            Err(fault) => Err(fault),
            Ok(done) => {
                let instr = instrs[count - 1];
                if !needs_temp(instr) {
                    Ok(
                        Legalized {
                            instrs: done.instrs + rewrite(instr, Value::Temp(0)),
                            next_temp: done.next_temp,
                        },
                    )
                } else if done.next_temp > u32::MAX {
                    Err(Fault::IdExhausted)
                } else {
                    Ok(
                        Legalized {
                            instrs: done.instrs + rewrite(
                                instr,
                                Value::Temp(done.next_temp as u32),
                            ),
                            next_temp: done.next_temp + 1,
                        },
                    )
                }
            },
        }
    }
}

/// The legalizer of one instruction sequence.
pub struct Legalizer<'a> {
    instrs: &'a Vec<Instr>,
    next_temp: u64,
}

impl<'a> Legalizer<'a> {
    /// The sequence that this legalizer rewrites.
    pub closed spec fn input(&self) -> Seq<Instr> {
        self.instrs@
    }

    /// The id that the next fresh temporary gets.
    pub closed spec fn next_temp(&self) -> nat {
        self.next_temp as nat
    }

    /// The greater of `bound` and the id of `value`, if it is a temporary.
    fn raise(bound: u32, value: &Value) -> (raised: u32)
        ensures
            raised == raise(bound as nat, *value),
    {
        match value {
            Value::Temp(id) => if *id > bound {
                *id
            } else {
                bound
            },
            _ => bound,
        }
    }

    /// The greatest id of a temporary among the operands of `instr`, or
    /// `bound` if that is greater.
    fn raise_by_instr(bound: u32, instr: &Instr) -> (raised: u32)
        ensures
            raised == raise_by_instr(bound as nat, *instr),
    {
        proof {
            reveal_with_fuel(Seq::fold_left, 4);
        }
        match instr {
            Instr::Immediate { dst, value } => {
                assert(seq![*dst, *value].drop_last() =~= seq![*dst]);
                assert(seq![*dst].drop_last() =~= Seq::<Value>::empty());
                Self::raise(Self::raise(bound, dst), value)
            },
            Instr::Move { dst, src } | Instr::Load { dst, src } | Instr::Store { dst, src } => {
                assert(seq![*dst, *src].drop_last() =~= seq![*dst]);
                assert(seq![*dst].drop_last() =~= Seq::<Value>::empty());
                Self::raise(Self::raise(bound, dst), src)
            },
            Instr::Add { dst, lhs, rhs }
            | Instr::Sub { dst, lhs, rhs }
            | Instr::Mul { dst, lhs, rhs }
            | Instr::CmpGt { dst, lhs, rhs } => {
                assert(seq![*dst, *lhs, *rhs].drop_last() =~= seq![*dst, *lhs]);
                assert(seq![*dst, *lhs].drop_last() =~= seq![*dst]);
                assert(seq![*dst].drop_last() =~= Seq::<Value>::empty());
                Self::raise(Self::raise(Self::raise(bound, dst), lhs), rhs)
            },
            Instr::AddImmediate { dst, lhs, .. } => {
                assert(seq![*dst, *lhs].drop_last() =~= seq![*dst]);
                assert(seq![*dst].drop_last() =~= Seq::<Value>::empty());
                Self::raise(Self::raise(bound, dst), lhs)
            },
            Instr::JumpIfFalse { cond, .. } => {
                assert(seq![*cond].drop_last() =~= Seq::<Value>::empty());
                Self::raise(bound, cond)
            },
            Instr::Jump(_) | Instr::Label(_) => bound,
        }
    }

    /// A legalizer for `instrs`. Its fresh temporaries start one above the
    /// greatest id of a temporary that `instrs` names, and at 1 where it
    /// names none.
    pub fn new(instrs: &'a Vec<Instr>) -> (legalizer: Self)
        ensures
            legalizer.input() == instrs@,
            legalizer.next_temp() == max_temp(instrs@, instrs@.len()) + 1,
    {
        let mut bound: u32 = 0;
        let mut i: usize = 0;
        while i < instrs.len()
            invariant
                i <= instrs@.len(),
                bound == max_temp(instrs@, i as nat),
            decreases instrs@.len() - i,
        {
            bound = Self::raise_by_instr(bound, &instrs[i]);
            i += 1;
        }
        Legalizer { instrs, next_temp: bound as u64 + 1 }
    }

    /// A temporary that the input does not name and that was not handed
    /// out before, if an id is left for one.
    fn get_next_temp(&mut self) -> (temp: Result<Value, Fault>)
        ensures
            final(self).input() == old(self).input(),
            match temp {
                Ok(value) => old(self).next_temp() <= u32::MAX && value == Value::Temp(
                    old(self).next_temp() as u32,
                ) && final(self).next_temp() == old(self).next_temp() + 1,
                Err(fault) => old(self).next_temp() > u32::MAX && fault == Fault::IdExhausted
                    && final(self).next_temp() == old(self).next_temp(),
            },
    {
        if self.next_temp > u32::MAX as u64 {
            return Err(Fault::IdExhausted);
        }
        let temp = Value::Temp(self.next_temp as u32);
        self.next_temp += 1;
        Ok(temp)
    }

    /// Rewrites the input, instruction by instruction and in order, into a
    /// new sequence. Each instruction passes through unchanged or is
    /// replaced by what its rule gives; see [`rewrite`].
    ///
    /// It fails, with [`Fault::IdExhausted`], only where a subtraction needs
    /// a temporary and none is left.
    pub fn legalize(&mut self) -> (legalized: Result<Vec<Instr>, Fault>)
        ensures
            final(self).input() == old(self).input(),
            match legalized {
                Ok(out) => legalize(
                    old(self).input(),
                    old(self).input().len(),
                    old(self).next_temp(),
                ) == Ok::<Legalized, Fault>(
                    Legalized { instrs: out@, next_temp: final(self).next_temp() },
                ),
                Err(fault) => legalize(
                    old(self).input(),
                    old(self).input().len(),
                    old(self).next_temp(),
                ) == Err::<Legalized, Fault>(fault) && fault == Fault::IdExhausted
                    && final(self).next_temp() > u32::MAX,
            },
    {
        let mut legalized_instrs: Vec<Instr> = Vec::new();
        let ghost seed = self.next_temp();
        let mut i: usize = 0;
        while i < self.instrs.len()
            invariant
                i <= self.instrs@.len(),
                self.input() == old(self).input(),
                seed == old(self).next_temp(),
                legalize(self.input(), i as nat, seed) == Ok::<Legalized, Fault>(
                    Legalized { instrs: legalized_instrs@, next_temp: self.next_temp() },
                ),
            decreases self.instrs@.len() - i,
        {
            let instr = self.instrs[i];
            let ghost before = legalized_instrs@;
            match instr {
                Instr::Move { dst, src } => match (dst, src) {
                    (Value::Var(_), Value::Const(_)) => {
                        legalized_instrs.push(Instr::Immediate { dst, value: src });
                    },
                    _ => {
                        legalized_instrs.push(instr);
                    },
                },
                Instr::Add { dst, lhs, rhs } => match (lhs, rhs) {
                    (Value::Const(l), Value::Const(r)) => {
                        legalized_instrs.push(
                            Instr::Immediate { dst, value: Value::Const(l.wrapping_add(r)) },
                        );
                    },
                    (val, Value::Const(c)) | (Value::Const(c), val) => {
                        legalized_instrs.push(Instr::AddImmediate { dst, lhs: val, imm: c });
                    },
                    _ => {
                        legalized_instrs.push(instr);
                    },
                },
                Instr::Sub { dst, lhs, rhs } => match (lhs, rhs) {
                    (Value::Const(l), Value::Const(r)) => {
                        legalized_instrs.push(
                            Instr::Immediate { dst, value: Value::Const(l.wrapping_sub(r)) },
                        );
                    },
                    (val, Value::Const(c)) | (Value::Const(c), val) => {
                        let temp = match self.get_next_temp() {
                            Ok(temp) => temp,
                            Err(fault) => {
                                proof {
                                    lemma_legalize_stops(
                                        self.input(),
                                        (i + 1) as nat,
                                        self.input().len(),
                                        seed,
                                    );
                                }
                                return Err(fault);
                            },
                        };
                        legalized_instrs.push(Instr::Immediate { dst: temp, value: Value::Const(c) });
                        legalized_instrs.push(Instr::Sub { dst, lhs: val, rhs: temp });
                    },
                    _ => {
                        legalized_instrs.push(instr);
                    },
                },
                _ => {
                    legalized_instrs.push(instr);
                },
            }
            assert(legalized_instrs@ =~= before + rewrite(
                instr,
                if needs_temp(instr) {
                    Value::Temp((self.next_temp() - 1) as u32)
                } else {
                    Value::Temp(0)
                },
            ));
            i += 1;
        }
        Ok(legalized_instrs)
    }
}

/// Once legalization has failed, it fails in the same way on every longer
/// prefix.
pub proof fn lemma_legalize_stops(instrs: Seq<Instr>, count: nat, more: nat, next_temp: nat)
    requires
        count <= more,
        legalize(instrs, count, next_temp) is Err,
    ensures
        legalize(instrs, more, next_temp) == legalize(instrs, count, next_temp),
    decreases more,
{
    if count < more {
        lemma_legalize_stops(instrs, count, (more - 1) as nat, next_temp);
    }
}

/// Legalization fails in one way only: no temporary is left. It succeeds
/// wherever one temporary for each instruction is left, and draws one for
/// each instruction at most.
pub proof fn lemma_legalize_outcome(instrs: Seq<Instr>, count: nat, next_temp: nat)
    ensures
        legalize(instrs, count, next_temp) matches Err(fault) ==> fault == Fault::IdExhausted,
        legalize(instrs, count, next_temp) matches Ok(done) ==> next_temp <= done.next_temp
            <= next_temp + count,
        next_temp + count <= u32::MAX + 1 ==> legalize(instrs, count, next_temp) is Ok,
    decreases count,
{
    if count > 0 {
        lemma_legalize_outcome(instrs, (count - 1) as nat, next_temp);
    }
}

/// Whether no rule applies to `instr`: it is no move of a literal to a
/// variable, and no addition or subtraction with a literal operand.
pub open spec fn is_legal(instr: Instr) -> bool {
    match instr {
        Instr::Move { dst, src } => !(dst is Var && src is Const),
        Instr::Add { lhs, rhs, .. } => !(lhs is Const) && !(rhs is Const),
        Instr::Sub { lhs, rhs, .. } => !(lhs is Const) && !(rhs is Const),
        _ => true,
    }
}

/// Whether no rule applies to any instruction of `instrs`.
pub open spec fn all_legal(instrs: Seq<Instr>) -> bool {
    forall|i: int| 0 <= i < instrs.len() ==> is_legal(#[trigger] instrs[i])
}

/// What a rule puts in the place of an instruction is left alone by every
/// rule.
pub proof fn lemma_rewrite_is_legal(instr: Instr, id: u32)
    ensures
        all_legal(rewrite(instr, Value::Temp(id))),
        1 <= rewrite(instr, Value::Temp(id)).len() <= 2,
{
}

/// An instruction that no rule applies to is rewritten to itself, and takes
/// no temporary.
pub proof fn lemma_legal_is_kept(instr: Instr, temp: Value)
    requires
        is_legal(instr),
    ensures
        !needs_temp(instr),
        rewrite(instr, temp) == seq![instr],
{
}

/// No rule applies to any instruction of a legalized sequence. In
/// particular, no addition or subtraction in it has a literal operand:
/// arithmetic on literals alone is always folded.
pub proof fn lemma_legalized_is_legal(instrs: Seq<Instr>, count: nat, next_temp: nat)
    requires
        legalize(instrs, count, next_temp) is Ok,
    ensures
        all_legal(legalize(instrs, count, next_temp)->Ok_0.instrs),
    decreases count,
{
    if count > 0 {
        let done = legalize(instrs, (count - 1) as nat, next_temp)->Ok_0;
        lemma_legalized_is_legal(instrs, (count - 1) as nat, next_temp);
        let instr = instrs[count - 1];
        let id = if needs_temp(instr) {
            done.next_temp as u32
        } else {
            0u32
        };
        lemma_rewrite_is_legal(instr, id);
        let out = legalize(instrs, count, next_temp)->Ok_0.instrs;
        assert(out == done.instrs + rewrite(instr, Value::Temp(id)));
        assert forall|i: int| 0 <= i < out.len() implies is_legal(#[trigger] out[i]) by {
            if i >= done.instrs.len() {
                assert(out[i] == rewrite(instr, Value::Temp(id))[i - done.instrs.len()]);
            }
        }
    }
}

/// A sequence that no rule applies to is legalized to itself, and takes no
/// temporary.
pub proof fn lemma_legal_is_fixed(instrs: Seq<Instr>, count: nat, next_temp: nat)
    requires
        count <= instrs.len(),
        all_legal(instrs),
    ensures
        legalize(instrs, count, next_temp) == Ok::<Legalized, Fault>(
            Legalized { instrs: instrs.take(count as int), next_temp: next_temp },
        ),
    decreases count,
{
    if count > 0 {
        lemma_legal_is_fixed(instrs, (count - 1) as nat, next_temp);
        lemma_legal_is_kept(instrs[count - 1], Value::Temp(0));
        assert(instrs.take(count - 1) + seq![instrs[count - 1]] =~= instrs.take(count as int));
    } else {
        assert(instrs.take(0) =~= Seq::<Instr>::empty());
    }
}

/// Legalization is idempotent: legalizing a legalized sequence again, with
/// fresh temporaries drawn from anywhere, gives the same sequence and
/// draws none.
pub proof fn lemma_legalize_fixed_point(instrs: Seq<Instr>, next_temp: nat, again: nat)
    requires
        legalize(instrs, instrs.len(), next_temp) is Ok,
    ensures
        ({
            let first = legalize(instrs, instrs.len(), next_temp)->Ok_0.instrs;
            legalize(first, first.len(), again) == Ok::<Legalized, Fault>(
                Legalized { instrs: first, next_temp: again },
            )
        }),
{
    let first = legalize(instrs, instrs.len(), next_temp)->Ok_0.instrs;
    lemma_legalized_is_legal(instrs, instrs.len(), next_temp);
    lemma_legal_is_fixed(first, first.len(), again);
    assert(first.take(first.len() as int) =~= first);
}

/// Legalization keeps the order and drops nothing: the legalized sequence
/// is as long as the input or longer, and labels and jumps come out as
/// they went in, one after the other.
pub proof fn lemma_legalize_keeps_control_flow(instrs: Seq<Instr>, count: nat, next_temp: nat)
    requires
        count <= instrs.len(),
        legalize(instrs, count, next_temp) is Ok,
    ensures
        count <= legalize(instrs, count, next_temp)->Ok_0.instrs.len() <= 2 * count,
        control_flow(legalize(instrs, count, next_temp)->Ok_0.instrs) == control_flow(
            instrs.take(count as int),
        ),
    decreases count,
{
    if count == 0 {
        assert(instrs.take(0) =~= Seq::<Instr>::empty());
    } else {
        let done = legalize(instrs, (count - 1) as nat, next_temp)->Ok_0;
        lemma_legalize_keeps_control_flow(instrs, (count - 1) as nat, next_temp);
        let instr = instrs[count - 1];
        let temp = if needs_temp(instr) {
            Value::Temp(done.next_temp as u32)
        } else {
            Value::Temp(0)
        };
        let put = rewrite(instr, temp);
        lemma_control_flow_add(done.instrs, put);
        assert(instrs.take(count as int) =~= instrs.take(count - 1).push(instr));
        lemma_control_flow_push(instrs.take(count - 1), instr);
        lemma_control_flow_empty();
        if put.len() == 1 {
            assert(put =~= Seq::<Instr>::empty().push(put[0]));
            lemma_control_flow_push(Seq::empty(), put[0]);
        } else {
            assert(put =~= Seq::<Instr>::empty().push(put[0]).push(put[1]));
            lemma_control_flow_push(Seq::empty(), put[0]);
            lemma_control_flow_push(Seq::<Instr>::empty().push(put[0]), put[1]);
        }
        if is_control(instr) {
            assert(control_flow(done.instrs) + Seq::<Instr>::empty().push(instr) =~= control_flow(
                done.instrs,
            ).push(instr));
        } else {
            assert(control_flow(done.instrs) + Seq::<Instr>::empty() =~= control_flow(done.instrs));
        }
    }
}

/// No operand of the first `count` instructions is a temporary with an id
/// above their greatest.
pub proof fn lemma_max_temp(instrs: Seq<Instr>, count: nat)
    requires
        count <= instrs.len(),
    ensures
        temps_within(instrs.take(count as int), 0, max_temp(instrs, count) + 1),
    decreases count,
{
    reveal_with_fuel(Seq::fold_left, 4);
    if count > 0 {
        lemma_max_temp(instrs, (count - 1) as nat);
        let before = max_temp(instrs, (count - 1) as nat);
        let instr = instrs[count - 1];
        let all = operands(instr);
        let bound = max_temp(instrs, count);
        assert(all.len() <= 3);
        if all.len() == 3 {
            assert(all.drop_last().drop_last().drop_last() =~= Seq::<Value>::empty());
        } else if all.len() == 2 {
            assert(all.drop_last().drop_last() =~= Seq::<Value>::empty());
        } else if all.len() == 1 {
            assert(all.drop_last() =~= Seq::<Value>::empty());
        }
        assert(before <= bound);
        assert forall|k: int| 0 <= k < all.len() implies value_within(
            #[trigger] all[k],
            0,
            bound + 1,
        ) by {
            if all.len() == 3 {
                assert(all.drop_last()[0] == all[0] && all.drop_last()[1] == all[1]);
                assert(all.drop_last().drop_last()[0] == all[0]);
            } else if all.len() == 2 {
                assert(all.drop_last()[0] == all[0]);
            }
        }
        lemma_widen_within(instrs.take(count - 1), 0, before + 1, bound + 1);
        lemma_push_within(instrs.take(count - 1), instr, 0, bound + 1);
        assert(instrs.take(count as int) =~= instrs.take(count - 1).push(instr));
    }
}

/// The temporaries that legalization introduces are new: starting one
/// above the greatest temporary of the input, it names, besides the
/// temporaries of the input, only those that it has drawn itself.
pub proof fn lemma_fresh_temporaries_are_new(instrs: Seq<Instr>, count: nat)
    requires
        count <= instrs.len(),
        legalize(instrs, count, max_temp(instrs, instrs.len()) + 1) is Ok,
    ensures
        ({
            let seed = max_temp(instrs, instrs.len()) + 1;
            let out = legalize(instrs, count, seed)->Ok_0;
            &&& temps_within(instrs, 0, seed)
            &&& seed <= out.next_temp
            &&& temps_within(out.instrs, 0, out.next_temp)
        }),
    decreases count,
{
    let seed = max_temp(instrs, instrs.len()) + 1;
    lemma_max_temp(instrs, instrs.len());
    assert(instrs.take(instrs.len() as int) =~= instrs);
    if count > 0 {
        let done = legalize(instrs, (count - 1) as nat, seed)->Ok_0;
        lemma_fresh_temporaries_are_new(instrs, (count - 1) as nat);
        let instr = instrs[count - 1];
        let out = legalize(instrs, count, seed)->Ok_0;
        let temp = if needs_temp(instr) {
            Value::Temp(done.next_temp as u32)
        } else {
            Value::Temp(0)
        };
        let put = rewrite(instr, temp);
        lemma_widen_within(done.instrs, 0, done.next_temp, out.next_temp);
        assert forall|k: int| 0 <= k < operands(instr).len() implies value_within(
            #[trigger] operands(instr)[k],
            0,
            out.next_temp,
        ) by {
            if let Value::Temp(id) = operands(instr)[k] {
                assert(mentions_temp(instrs[count - 1], id));
            }
        }
        assert(operands_within(put[0], 0, out.next_temp)) by {
            assert forall|k: int| 0 <= k < operands(put[0]).len() implies value_within(
                #[trigger] operands(put[0])[k],
                0,
                out.next_temp,
            ) by {
                lemma_rewritten_operand(instr, temp, 0, k);
            }
        }
        lemma_push_within(done.instrs, put[0], 0, out.next_temp);
        if put.len() == 2 {
            assert(operands_within(put[1], 0, out.next_temp)) by {
                assert forall|k: int| 0 <= k < operands(put[1]).len() implies value_within(
                    #[trigger] operands(put[1])[k],
                    0,
                    out.next_temp,
                ) by {
                    lemma_rewritten_operand(instr, temp, 1, k);
                }
            }
            lemma_push_within(done.instrs.push(put[0]), put[1], 0, out.next_temp);
            assert(out.instrs =~= done.instrs.push(put[0]).push(put[1]));
        } else {
            assert(out.instrs =~= done.instrs.push(put[0]));
        }
    }
}

/// Every operand of what an instruction is rewritten to is an operand of
/// the instruction, a literal, or the temporary that was handed in.
proof fn lemma_rewritten_operand(instr: Instr, temp: Value, at: int, k: int)
    requires
        0 <= at < rewrite(instr, temp).len(),
        0 <= k < operands(rewrite(instr, temp)[at]).len(),
    ensures
        operands(rewrite(instr, temp)[at])[k] is Const || operands(rewrite(instr, temp)[at])[k]
            == temp && needs_temp(instr) || operands(instr).contains(
            operands(rewrite(instr, temp)[at])[k],
        ),
{
    let all = operands(instr);
    if all.len() >= 1 {
        assert(all.contains(all[0]));
    }
    if all.len() >= 2 {
        assert(all.contains(all[1]));
    }
    if all.len() >= 3 {
        assert(all.contains(all[2]));
    }
}

} // verus!
