//! The state machine that replaces the body.
//!
//! Each segment becomes an arm of the `match`: the statements that run in
//! it, then a step to the next state; the last arm of a function without a
//! value returns instead. A `let` placed in front of the state machine that
//! its arm initializes again becomes an assignment there. The function's tail,
//! an expression statement without a semicolon at the end of the body,
//! becomes a `return` in a function with a value, and gets a semicolon in
//! one without; every other statement stays as written.
use vstd::prelude::*;

use crate::error::{faults, Fault, GotoError};
use crate::model::{Arg, Body, Options, Stmt};
use crate::rewrite::{body_rewrite, jump_views, rewrite_body, Jump, JumpView};
use crate::segments::{
    arm_positions, collect_labels, duplicate_faults, duplicate_labels, hoist, hoist_views,
    hoisted_positions, index_lists, index_views, invalid_labels, label_faults, label_names, place,
    places, split_segments, Hoist, HoistView, Place,
};
use crate::strict::{strict_check, strict_faults};

verus! {

/// What the end of an arm's statement becomes.
#[derive(Clone, Copy, PartialEq, Eq, Structural)]
pub enum Finish {
    /// Kept as written.
    Keep,
    /// Made the operand of a `return`.
    Return,
    /// Given a semicolon.
    Terminate,
    /// A `let` that stands whole in front and that its arm initializes
    /// again: its name is assigned the initializer.
    Assign,
}

/// A statement of an arm: its index in the body, and what its end becomes.
#[derive(Clone, Copy)]
pub struct Step {
    pub index: usize,
    pub finish: Finish,
}

/// A step as a value.
pub struct StepView {
    pub index: nat,
    pub finish: Finish,
}

impl View for Step {
    type V = StepView;

    open spec fn view(&self) -> StepView {
        StepView { index: self.index as nat, finish: self.finish }
    }
}

/// An arm of the state machine: its statements, then the state it continues
/// with, or `None` when it returns.
pub struct Arm {
    pub steps: Vec<Step>,
    pub next: Option<usize>,
}

/// An arm as a value.
pub struct ArmView {
    pub steps: Seq<StepView>,
    pub next: Option<nat>,
}

impl View for Arm {
    type V = ArmView;

    open spec fn view(&self) -> ArmView {
        ArmView {
            steps: self.steps@.map_values(|t: Step| t@),
            next: match self.next {
                Some(k) => Some(k as nat),
                None => None,
            },
        }
    }
}

/// The rewritten function: the hoisted statements, the arms of the state
/// machine (arm `k` runs in state `k`, starting from state 0), and the
/// jumps that replace the `goto!(…)` invocations.
pub struct Expansion {
    pub hoisted: Vec<Hoist>,
    pub arms: Vec<Arm>,
    pub jumps: Vec<Jump>,
}

/// The rewritten function as a value.
pub struct ExpansionView {
    pub hoisted: Seq<HoistView>,
    pub arms: Seq<ArmView>,
    pub jumps: Seq<JumpView>,
}

impl View for Expansion {
    type V = ExpansionView;

    open spec fn view(&self) -> ExpansionView {
        ExpansionView {
            hoisted: hoist_views(self.hoisted@),
            arms: self.arms@.map_values(|a: Arm| a@),
            jumps: jump_views(self.jumps@),
        }
    }
}

/// The result of the rewrite as a value.
pub open spec fn outcome(r: Result<Expansion, Vec<GotoError>>) -> Result<ExpansionView, Seq<Fault>> {
    match r {
        Ok(e) => Ok(e@),
        Err(v) => Err(faults(v@)),
    }
}

/// What statement `p` becomes in its arm: an assignment when it stands
/// whole in front and its arm initializes it again; the `return` or the semicolon of the tail,
/// when it is the last statement of the body and an expression without a
/// semicolon; otherwise itself.
pub open spec fn finish_of(s: Seq<Stmt<Arg>>, p: int, returns_value: bool) -> Finish {
    if place(s, p) == Place::Rerun {
        Finish::Assign
    } else if p == s.len() - 1 && s[p] matches Stmt::Expr { semi: false, .. } {
        if returns_value {
            Finish::Return
        } else {
            Finish::Terminate
        }
    } else {
        Finish::Keep
    }
}

/// The steps of an arm whose statements are `ps`.
pub open spec fn steps_of(s: Seq<Stmt<Arg>>, ps: Seq<nat>, returns_value: bool) -> Seq<StepView> {
    Seq::new(
        ps.len(),
        |i: int|
            StepView {
                index: ps[i],
                finish: finish_of(s, ps[i] as int, returns_value),
            },
    )
}

/// The state after arm `k` of `count`: the next one, except after the last
/// arm of a function without a value, which returns.
pub open spec fn next_of(k: int, count: int, returns_value: bool) -> Option<nat> {
    if k == count - 1 && !returns_value {
        None
    } else {
        Some((k + 1) as nat)
    }
}

/// The arms of the state machine.
pub open spec fn arms_of(s: Seq<Stmt<Arg>>, returns_value: bool) -> Seq<ArmView> {
    let ps = arm_positions(s, s.len() as int);
    Seq::new(
        ps.len(),
        |k: int|
            ArmView {
                steps: steps_of(s, ps[k], returns_value),
                next: next_of(k, ps.len() as int, returns_value),
            },
    )
}

/// The rewrite of the body: the first kind of error found, all of its
/// instances in order, or the state machine.
///
/// The kinds are checked in this order: labels that are not identifiers;
/// labels named twice; in strict mode, misleading `let` initializers; then
/// `goto!(…)` invocations that are not identifiers, name no label, or stand
/// in a closure.
pub open spec fn expand_spec(body: Body<Arg>, opts: Options) -> Result<ExpansionView, Seq<Fault>> {
    let s = body.stmts@;
    let n = s.len() as int;
    let names = label_names(s, n);
    let rw = body_rewrite(s, names, n, opts.debug);
    if label_faults(s, n).len() > 0 {
        Err(label_faults(s, n))
    } else if duplicate_faults(s, n).len() > 0 {
        Err(duplicate_faults(s, n))
    } else if opts.strict && strict_faults(s, names, n).len() > 0 {
        Err(strict_faults(s, names, n))
    } else if rw.faults.len() > 0 {
        Err(rw.faults)
    } else {
        Ok(
            ExpansionView {
                hoisted: hoisted_positions(s, n),
                arms: arms_of(s, body.returns_value),
                jumps: rw.jumps,
            },
        )
    }
}

/// Every statement kept in an arm comes before `p`.
pub proof fn lemma_arm_positions_bounded<A>(s: Seq<Stmt<A>>, p: int)
    requires
        0 <= p <= s.len(),
    ensures
        forall|k: int, i: int|
            0 <= k < arm_positions(s, p).len() && 0 <= i < arm_positions(s, p)[k].len()
                ==> #[trigger] arm_positions(s, p)[k][i] < p,
        arm_positions(s, p).len() >= 1,
    decreases p,
{
    if p > 0 {
        lemma_arm_positions_bounded(s, p - 1);
        let prev = arm_positions(s, p - 1);
        let cur = arm_positions(s, p);
        assert forall|k: int, i: int| 0 <= k < cur.len() && 0 <= i < cur[k].len() implies #[trigger] cur[k][i]
            < p by {
            if k < prev.len() && i < prev[k].len() {
                assert(prev[k][i] < p - 1);
            }
        }
    }
}

/// The arms of the state machine, from the statements kept in each segment.
fn build_arms(
    stmts: &Vec<Stmt<Arg>>,
    where_to: &Vec<Place>,
    positions: &Vec<Vec<usize>>,
    returns_value: bool,
) -> (arms: Vec<Arm>)
    requires
        index_lists(positions@) == arm_positions(stmts@, stmts@.len() as int),
        where_to@.len() == stmts@.len(),
        forall|i: int| 0 <= i < where_to@.len() ==> #[trigger] where_to@[i] == place(stmts@, i),
    ensures
        arms@.map_values(|a: Arm| a@) == arms_of(stmts@, returns_value),
{
    let ghost s = stmts@;
    let ghost ps = arm_positions(s, s.len() as int);
    proof {
        lemma_arm_positions_bounded(s, s.len() as int);
    }
    let count = positions.len();
    assert(count == ps.len()) by {
        assert(index_lists(positions@).len() == positions@.len());
    }
    let mut arms: Vec<Arm> = Vec::new();
    let mut k: usize = 0;
    while k < count
        invariant
            0 <= k <= count,
            count == positions@.len(),
            s == stmts@,
            where_to@.len() == s.len(),
            forall|i: int| 0 <= i < where_to@.len() ==> #[trigger] where_to@[i] == place(s, i),
            ps == arm_positions(s, s.len() as int),
            index_lists(positions@) == ps,
            ps.len() == count,
            forall|a: int, i: int|
                0 <= a < ps.len() && 0 <= i < ps[a].len() ==> #[trigger] ps[a][i] < s.len(),
            arms@.len() == k,
            forall|a: int|
                0 <= a < k ==> #[trigger] arms@[a]@ == arms_of(s, returns_value)[a],
        decreases count - k,
    {
        let row = &positions[k];
        assert(index_views(row@) == ps[k as int]);
        let len = row.len();
        let mut steps: Vec<Step> = Vec::new();
        let mut i: usize = 0;
        while i < len
            invariant
                0 <= i <= len,
                len == row@.len(),
                s == stmts@,
                where_to@.len() == s.len(),
                forall|j: int| 0 <= j < where_to@.len() ==> #[trigger] where_to@[j] == place(s, j),
                index_views(row@) == ps[k as int],
                k < ps.len(),
                forall|j: int| 0 <= j < ps[k as int].len() ==> #[trigger] ps[k as int][j] < s.len(),
                steps@.len() == i,
                forall|j: int|
                    0 <= j < i ==> #[trigger] steps@[j]@ == steps_of(s, ps[k as int], returns_value)[j],
            decreases len - i,
        {
            let index = row[i];
            assert(index_views(row@)[i as int] == index as nat);
            assert(ps[k as int][i as int] < s.len());
            let finish = if where_to[index] == Place::Rerun {
                Finish::Assign
            } else if stmts.len() - index == 1 {
                match &stmts[index] {
                    Stmt::Expr { semi: false, .. } => if returns_value {
                        Finish::Return
                    } else {
                        Finish::Terminate
                    },
                    _ => Finish::Keep,
                }
            } else {
                Finish::Keep
            };
            steps.push(Step { index, finish });
            i = i + 1;
        }
        let next = if k + 1 == count && !returns_value {
            None
        } else {
            Some(k + 1)
        };
        let arm = Arm { steps, next };
        assert(arm@.steps =~= steps_of(s, ps[k as int], returns_value));
        arms.push(arm);
        k = k + 1;
    }
    assert(arms@.map_values(|a: Arm| a@) =~= arms_of(s, returns_value));
    arms
}

/// Rewrites the body, whose macro arguments have been read as identifiers,
/// into a state machine, or gives the errors that prevent it.
pub fn expand(body: &Body<Arg>, opts: Options) -> (r: Result<Expansion, Vec<GotoError>>)
    ensures
        outcome(r) == expand_spec(*body, opts),
{
    let stmts = &body.stmts;
    let ghost s = stmts@;
    let ghost n = s.len() as int;
    let invalid = invalid_labels(stmts);
    if invalid.len() > 0 {
        return Err(invalid);
    }
    let duplicates = duplicate_labels(stmts);
    if duplicates.len() > 0 {
        return Err(duplicates);
    }
    let names = collect_labels(stmts);
    if opts.strict {
        let misleading = strict_check(stmts, &names);
        if misleading.len() > 0 {
            return Err(misleading);
        }
    }
    let (jumps, errs) = rewrite_body(stmts, &names, opts.debug);
    if errs.len() > 0 {
        return Err(errs);
    }
    let hoisted = hoist(stmts);
    let positions = split_segments(stmts);
    let where_to = places(stmts);
    let arms = build_arms(stmts, &where_to, &positions, body.returns_value);
    let e = Expansion { hoisted, arms, jumps };
    assert(e@.arms == arms_of(s, body.returns_value));
    Ok(e)
}

} // verus!
