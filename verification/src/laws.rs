//! What holds of every rewrite.
use vstd::prelude::*;

use crate::error::Fault;
use crate::expand::{arms_of, expand_spec, ArmView, Finish, StepView};
use crate::model::{
    is_goto, is_goto_event, is_label, is_word, options_of, Arg, Body, Event, LetForm, Mark, Options, Stmt,
};
use crate::rewrite::{
    all_marks_rewrite, body_rewrite, closure_goto, mark_rewrite, marks_rewrite, resolve,
    stmt_rewrite, then, goto_state, JumpView, Rewrite,
};
use crate::strict::{marks_reach, reach_earlier, reach_upto, stmt_reach, strict_faults, works};
use crate::segments::{
    after_goto, arm_positions, duplicate_faults, find_label, hoisted, hoisted_positions, kept,
    label_faults, label_name, label_names, lemma_find_sound, marks_jump, place, segment_of,
    sole_binder,
    Place,
};

verus! {

/// Whether statement `p` is one that the rewrite visits: any but a label.
pub open spec fn rewritten<A>(s: Seq<Stmt<A>>, p: int) -> bool {
    0 <= p < s.len() && !is_label(s[p])
}

/// The statements among the first `p` that run in an arm, in order.
pub open spec fn kept_positions<A>(s: Seq<Stmt<A>>, p: int) -> Seq<nat>
    decreases p,
{
    if p <= 0 {
        Seq::empty()
    } else if kept(s, p - 1) {
        kept_positions(s, p - 1).push((p - 1) as nat)
    } else {
        kept_positions(s, p - 1)
    }
}

/// The lists, one after the other.
pub open spec fn concat_all(ss: Seq<Seq<nat>>) -> Seq<nat>
    decreases ss.len(),
{
    if ss.len() == 0 {
        Seq::empty()
    } else {
        concat_all(ss.drop_last()) + ss.last()
    }
}

/// The statement indices of the steps of arm `k`.
pub open spec fn arm_indices(arms: Seq<ArmView>, k: int) -> Seq<nat> {
    arms[k].steps.map_values(|t: StepView| t.index)
}

/// Later statements are in later segments.
proof fn lemma_segment_monotone<A>(s: Seq<Stmt<A>>, a: int, b: int)
    requires
        0 <= a <= b,
    ensures
        segment_of(s, a) <= segment_of(s, b),
    decreases b - a,
{
    if a < b {
        lemma_segment_monotone(s, a, b - 1);
    }
}

/// There are as many label names as labels before `p`.
proof fn lemma_label_count(s: Seq<Stmt<Arg>>, p: int)
    requires
        0 <= p <= s.len(),
    ensures
        label_names(s, p).len() == segment_of(s, p),
    decreases p,
{
    if p > 0 {
        lemma_label_count(s, p - 1);
    }
}

/// The shape of the segments: one more than the labels, each holding the
/// statements of its segment that run in an arm, all together all those, in order.
proof fn lemma_arm_shape<A>(s: Seq<Stmt<A>>, p: int)
    requires
        0 <= p <= s.len(),
    ensures
        arm_positions(s, p).len() == segment_of(s, p) + 1,
        forall|k: int, i: int|
            0 <= k < arm_positions(s, p).len() && 0 <= i < arm_positions(s, p)[k].len() ==> {
                let q = #[trigger] arm_positions(s, p)[k][i];
                &&& q < p
                &&& segment_of(s, q as int) == k
                &&& kept(s, q as int)
            },
        concat_all(arm_positions(s, p)) == kept_positions(s, p),
        forall|k: int, i: int, j: int|
            0 <= k < arm_positions(s, p).len() && 0 <= i < j < arm_positions(s, p)[k].len()
                ==> #[trigger] arm_positions(s, p)[k][i] < #[trigger] arm_positions(s, p)[k][j],
        forall|q: int|
            0 <= q < p && kept(s, q) ==> #[trigger] arm_positions(s, p)[segment_of(
                s,
                q,
            ) as int].contains(q as nat),
    decreases p,
{
    if p == 0 {
        assert(concat_all(Seq::<Seq<nat>>::empty()) == Seq::<nat>::empty());
        assert(concat_all(arm_positions(s, 0)) =~= Seq::<nat>::empty()) by {
            assert(arm_positions(s, 0).drop_last() =~= Seq::<Seq<nat>>::empty());
        }
    } else {
        lemma_arm_shape(s, p - 1);
        let prev = arm_positions(s, p - 1);
        let cur = arm_positions(s, p);
        if is_label(s[p - 1]) {
            assert(cur.drop_last() =~= prev);
            assert(concat_all(cur) =~= concat_all(prev));
            assert forall|q: int| 0 <= q < p && kept(s, q) implies #[trigger] cur[segment_of(
                s,
                q,
            ) as int].contains(q as nat) by {
                lemma_segment_monotone(s, q, p - 1);
                assert(cur[segment_of(s, q) as int] == prev[segment_of(s, q) as int]);
            }
        } else if !kept(s, p - 1) {
        } else {
            let last = prev.len() - 1;
            assert(cur.drop_last() =~= prev.drop_last());
            assert(concat_all(prev) == concat_all(prev.drop_last()) + prev.last());
            assert(concat_all(cur) =~= concat_all(prev).push((p - 1) as nat));
            assert forall|k: int, i: int| 0 <= k < cur.len() && 0 <= i < cur[k].len() implies {
                let q = #[trigger] cur[k][i];
                &&& q < p
                &&& segment_of(s, q as int) == k
                &&& kept(s, q as int)
            } by {
                if k < last || i < prev[k].len() {
                    assert(cur[k][i] == prev[k][i]);
                }
            }
            assert forall|k: int, i: int, j: int|
                0 <= k < cur.len() && 0 <= i < j < cur[k].len() implies #[trigger] cur[k][i]
                < #[trigger] cur[k][j] by {
                if k < last || j < prev[k].len() {
                    assert(cur[k][i] == prev[k][i]);
                    assert(cur[k][j] == prev[k][j]);
                } else {
                    assert(cur[k][i] == prev[k][i]);
                    assert(prev[k][i] < p - 1);
                }
            }
            assert forall|q: int| 0 <= q < p && kept(s, q) implies #[trigger] cur[segment_of(
                s,
                q,
            ) as int].contains(q as nat) by {
                let k = segment_of(s, q) as int;
                lemma_segment_monotone(s, q, p - 1);
                if q < p - 1 {
                    assert(prev[k].contains(q as nat));
                    let i = choose|i: int| 0 <= i < prev[k].len() && prev[k][i] == q as nat;
                    assert(cur[k][i] == q as nat);
                } else {
                    assert(cur[k][cur[k].len() - 1] == q as nat);
                }
            }
        }
    }
}

/// A statement that runs in an arm stands in the arm of its segment.
proof fn lemma_kept_in_arm<A>(s: Seq<Stmt<A>>, q: int)
    requires
        kept(s, q),
    ensures
        arm_positions(s, s.len() as int)[segment_of(s, q) as int].contains(q as nat),
{
    lemma_arm_shape(s, s.len() as int);
}

/// The kept statements come in increasing order.
proof fn lemma_kept_increasing<A>(s: Seq<Stmt<A>>, p: int)
    requires
        0 <= p <= s.len(),
    ensures
        forall|i: int, j: int|
            0 <= i < j < kept_positions(s, p).len() ==> kept_positions(s, p)[i]
                < kept_positions(s, p)[j],
        forall|i: int| 0 <= i < kept_positions(s, p).len() ==> kept_positions(s, p)[i] < p,
        forall|q: int| 0 <= q < p && kept(s, q) ==> kept_positions(s, p).contains(q as nat),
    decreases p,
{
    if p > 0 {
        lemma_kept_increasing(s, p - 1);
        let prev = kept_positions(s, p - 1);
        let cur = kept_positions(s, p);
        assert forall|q: int| 0 <= q < p && kept(s, q) implies cur.contains(q as nat) by {
            if q < p - 1 {
                let i = choose|i: int| 0 <= i < prev.len() && prev[i] == q as nat;
                assert(cur[i] == q as nat);
            } else {
                assert(cur[cur.len() - 1] == q as nat);
            }
        }
    }
}

/// Segments. The state machine has one arm more than the body has labels.
/// Arm `k` holds, in the order of the body, the statements of segment `k`
/// (those after the `k`-th label, counting the first as the 1st, and before
/// the next) that run in the arm: all but the labels and the `let`s placed
/// whole in front of the state machine; each such statement of the
/// body stands in exactly the arm of its segment; and all arms together, one
/// after the other, hold these statements in the order of the body.
pub proof fn law_segments(body: Body<Arg>, opts: Options)
    ensures
        expand_spec(body, opts) matches Ok(e) ==> {
            let s = body.stmts@;
            let n = s.len() as int;
            &&& e.arms.len() == label_names(s, n).len() + 1
            &&& forall|k: int, i: int|
                0 <= k < e.arms.len() && 0 <= i < e.arms[k].steps.len() ==> {
                    let q = #[trigger] e.arms[k].steps[i].index as int;
                    &&& q < n
                    &&& segment_of(s, q) == k
                    &&& kept(s, q)
                }
            &&& forall|q: int|
                0 <= q < n && kept(s, q) ==> #[trigger] arm_indices(
                    e.arms,
                    segment_of(s, q) as int,
                ).contains(q as nat)
            &&& forall|k: int, i: int, j: int|
                0 <= k < e.arms.len() && 0 <= i < j < e.arms[k].steps.len()
                    ==> #[trigger] e.arms[k].steps[i].index < #[trigger] e.arms[k].steps[j].index
            &&& concat_all(Seq::new(e.arms.len(), |k: int| arm_indices(e.arms, k)))
                == kept_positions(s, n)
        },
{
    if let Ok(e) = expand_spec(body, opts) {
        let s = body.stmts@;
        let n = s.len() as int;
        let ps = arm_positions(s, n);
        lemma_arm_shape(s, n);
        lemma_label_count(s, n);
        lemma_kept_increasing(s, n);
        let lists = Seq::new(e.arms.len(), |k: int| arm_indices(e.arms, k));
        assert forall|k: int| 0 <= k < e.arms.len() implies #[trigger] arm_indices(e.arms, k)
            == ps[k] by {
            assert(arm_indices(e.arms, k) =~= ps[k]);
        }
        assert(lists =~= ps);
        assert forall|q: int| 0 <= q < n && kept(s, q) implies #[trigger] arm_indices(
            e.arms,
            segment_of(s, q) as int,
        ).contains(q as nat) by {
            lemma_segment_monotone(s, q, n);
            assert(arm_indices(e.arms, segment_of(s, q) as int) == ps[segment_of(s, q) as int]);
        }
        assert forall|k: int, i: int, j: int|
            0 <= k < e.arms.len() && 0 <= i < j < e.arms[k].steps.len()
                implies #[trigger] e.arms[k].steps[i].index
            < #[trigger] e.arms[k].steps[j].index by {
            assert(arm_indices(e.arms, k)[i] == ps[k][i]);
            assert(arm_indices(e.arms, k)[j] == ps[k][j]);
        }
        assert forall|k: int, i: int|
            0 <= k < e.arms.len() && 0 <= i < e.arms[k].steps.len() implies {
                let q = #[trigger] e.arms[k].steps[i].index as int;
                &&& q < n
                &&& segment_of(s, q) == k
                &&& kept(s, q)
            } by {
            assert(arm_indices(e.arms, k)[i] == ps[k][i]);
        }
    }
}

/// Ends of arms. Arm `k` continues with state `k + 1`, except the last arm
/// of a function without a value, which returns. A statement of an arm
/// stays as written, with two exceptions: a `let` that stands whole in
/// front and is initialized again on each arrival becomes an assignment; and the tail of the function, its last
/// statement when that is an expression without a semicolon, becomes the
/// operand of a `return` in a function with a value, and gets a semicolon in
/// one without. The ends of the other arms do not change.
pub proof fn law_arm_ends(body: Body<Arg>, opts: Options)
    ensures
        expand_spec(body, opts) matches Ok(e) ==> {
            let s = body.stmts@;
            let rv = body.returns_value;
            &&& forall|k: int|
                0 <= k < e.arms.len() ==> #[trigger] e.arms[k].next == if k == e.arms.len() - 1
                    && !rv {
                    None
                } else {
                    Some((k + 1) as nat)
                }
            &&& forall|k: int, i: int|
                0 <= k < e.arms.len() && 0 <= i < e.arms[k].steps.len() ==> {
                    let t = #[trigger] e.arms[k].steps[i];
                    t.finish == if place(s, t.index as int) == Place::Rerun {
                        Finish::Assign
                    } else if t.index == s.len() - 1 && s[t.index as int] matches Stmt::Expr {
                        semi: false,
                        ..
                    } {
                        if rv {
                            Finish::Return
                        } else {
                            Finish::Terminate
                        }
                    } else {
                        Finish::Keep
                    }
                }
        },
{
}

/// Whether a jump sets a state that a label opens, and announces that
/// label's name exactly in debug mode.
pub open spec fn jump_ok(j: JumpView, names: Seq<Seq<char>>, debug: bool) -> bool {
    &&& 1 <= j.state <= names.len()
    &&& j.announce == if debug {
        Some(names[j.state - 1])
    } else {
        None
    }
}

/// Whether every jump of a rewrite is sound.
pub open spec fn jumps_ok(r: Rewrite, names: Seq<Seq<char>>, debug: bool) -> bool {
    forall|i: int| 0 <= i < r.jumps.len() ==> #[trigger] jump_ok(r.jumps[i], names, debug)
}

proof fn lemma_then_ok(a: Rewrite, b: Rewrite, names: Seq<Seq<char>>, debug: bool)
    requires
        jumps_ok(a, names, debug),
        jumps_ok(b, names, debug),
    ensures
        jumps_ok(then(a, b), names, debug),
{
    let c = then(a, b);
    assert forall|i: int| 0 <= i < c.jumps.len() implies #[trigger] jump_ok(c.jumps[i], names, debug) by {
        if i < a.jumps.len() {
            assert(c.jumps[i] == a.jumps[i]);
        } else {
            assert(c.jumps[i] == b.jumps[i - a.jumps.len()]);
        }
    }
}

proof fn lemma_resolve_ok(names: Seq<Seq<char>>, site: usize, arg: Arg, debug: bool)
    ensures
        jumps_ok(resolve(names, site, arg, debug), names, debug),
{
    if let Arg::Ident(n) = arg {
        lemma_find_sound(names, n@, names.len() as int);
    }
}

proof fn lemma_marks_ok(names: Seq<Seq<char>>, ms: Seq<Mark<Arg>>, k: int, debug: bool)
    requires
        k <= ms.len(),
    ensures
        jumps_ok(marks_rewrite(names, ms, k, debug), names, debug),
    decreases k,
{
    if k > 0 {
        lemma_marks_ok(names, ms, k - 1, debug);
        let m = ms[k - 1];
        if m.depth == 0 {
            if let Event::Macro { name, site, arg } = m.event {
                lemma_resolve_ok(names, site, arg, debug);
            }
        }
        lemma_then_ok(
            marks_rewrite(names, ms, k - 1, debug),
            mark_rewrite(names, ms, k - 1, debug),
            names,
            debug,
        );
    }
}

proof fn lemma_stmt_ok(names: Seq<Seq<char>>, st: Stmt<Arg>, debug: bool)
    ensures
        jumps_ok(stmt_rewrite(names, st, debug), names, debug),
{
    match st {
        Stmt::Local { init, rest, .. } => {
            lemma_marks_ok(names, init@, init@.len() as int, debug);
            lemma_marks_ok(names, rest@, rest@.len() as int, debug);
            lemma_then_ok(
                all_marks_rewrite(names, init@, debug),
                all_marks_rewrite(names, rest@, debug),
                names,
                debug,
            );
        },
        Stmt::Macro { site, arg, .. } => {
            lemma_resolve_ok(names, site, arg, debug);
        },
        Stmt::Expr { marks, .. } => {
            lemma_marks_ok(names, marks@, marks@.len() as int, debug);
        },
        Stmt::Item => {},
    }
}

proof fn lemma_body_ok(s: Seq<Stmt<Arg>>, names: Seq<Seq<char>>, p: int, debug: bool)
    requires
        p <= s.len(),
    ensures
        jumps_ok(body_rewrite(s, names, p, debug), names, debug),
    decreases p,
{
    if p > 0 {
        lemma_body_ok(s, names, p - 1, debug);
        lemma_stmt_ok(names, s[p - 1], debug);
        if !is_label(s[p - 1]) {
            lemma_then_ok(
                body_rewrite(s, names, p - 1, debug),
                stmt_rewrite(names, s[p - 1], debug),
                names,
                debug,
            );
        }
    }
}

/// With no error about labels, every label has an identifier for a name and
/// no two labels share one.
proof fn lemma_names_distinct(s: Seq<Stmt<Arg>>, p: int)
    requires
        0 <= p <= s.len(),
        label_faults(s, p).len() == 0,
        duplicate_faults(s, p).len() == 0,
    ensures
        forall|i: int, j: int|
            0 <= i < j < label_names(s, p).len() ==> label_names(s, p)[i] != label_names(
                s,
                p,
            )[j],
    decreases p,
{
    if p > 0 {
        let prev_l = label_faults(s, p - 1);
        let prev_d = duplicate_faults(s, p - 1);
        assert(prev_l.len() <= label_faults(s, p).len());
        assert(prev_d.len() <= duplicate_faults(s, p).len());
        lemma_names_distinct(s, p - 1);
        let names = label_names(s, p);
        let prev = label_names(s, p - 1);
        if is_label(s[p - 1]) {
            assert(s[p - 1] matches Stmt::Macro { arg: Arg::Ident(_), .. });
            assert(!prev.contains(label_name(s[p - 1])));
            assert forall|i: int, j: int| 0 <= i < j < names.len() implies names[i] != names[j] by {
                if j == names.len() - 1 {
                    assert(names[i] == prev[i]);
                }
            }
        }
    }
}

/// Jumps. Each jump sets the state of the arm that a label opens: state
/// `k + 1` for the label at index `k` (counting from 0), whose name no other
/// label has. In debug mode the jump announces that name, otherwise nothing.
pub proof fn law_jumps(body: Body<Arg>, opts: Options)
    ensures
        expand_spec(body, opts) matches Ok(e) ==> {
            let s = body.stmts@;
            let names = label_names(s, s.len() as int);
            forall|i: int|
                0 <= i < e.jumps.len() ==> {
                    let j = #[trigger] e.jumps[i];
                    &&& 1 <= j.state < e.arms.len()
                    &&& j.announce == if opts.debug {
                        Some(names[j.state - 1])
                    } else {
                        None
                    }
                    &&& forall|k: int|
                        0 <= k < names.len() && k != j.state - 1 ==> #[trigger] names[k]
                            != names[j.state - 1]
                }
        },
{
    if let Ok(e) = expand_spec(body, opts) {
        let s = body.stmts@;
        let n = s.len() as int;
        let names = label_names(s, n);
        lemma_body_ok(s, names, n, opts.debug);
        lemma_names_distinct(s, n);
        law_segments(body, opts);
        assert forall|i: int| 0 <= i < e.jumps.len() implies {
            let j = #[trigger] e.jumps[i];
            &&& 1 <= j.state < e.arms.len()
            &&& j.announce == if opts.debug {
                Some(names[j.state - 1])
            } else {
                None
            }
            &&& forall|k: int|
                0 <= k < names.len() && k != j.state - 1 ==> #[trigger] names[k] != names[j.state
                    - 1]
        } by {
            assert(jump_ok(e.jumps[i], names, opts.debug));
            let t = e.jumps[i].state - 1;
            assert forall|k: int| 0 <= k < names.len() && k != t implies #[trigger] names[k]
                != names[t] by {
                if k < t {
                } else {
                }
            }
        }
    }
}

/// Whether `b` is `a` with announcements: same errors, jumps from the same
/// invocations to the same states.
pub open spec fn twins(a: Rewrite, b: Rewrite) -> bool {
    &&& a.faults == b.faults
    &&& a.jumps.len() == b.jumps.len()
    &&& forall|i: int|
        0 <= i < a.jumps.len() ==> #[trigger] a.jumps[i].site == b.jumps[i].site
            && a.jumps[i].state == b.jumps[i].state
}

proof fn lemma_then_twins(a: Rewrite, b: Rewrite, c: Rewrite, d: Rewrite)
    requires
        twins(a, b),
        twins(c, d),
    ensures
        twins(then(a, c), then(b, d)),
{
    let x = then(a, c);
    let y = then(b, d);
    assert forall|i: int| 0 <= i < x.jumps.len() implies #[trigger] x.jumps[i].site
        == y.jumps[i].site && x.jumps[i].state == y.jumps[i].state by {
        if i >= a.jumps.len() {
            assert(x.jumps[i] == c.jumps[i - a.jumps.len()]);
            assert(y.jumps[i] == d.jumps[i - b.jumps.len()]);
            assert(c.jumps[i - a.jumps.len()].site == d.jumps[i - a.jumps.len()].site);
        } else {
            assert(x.jumps[i] == a.jumps[i]);
            assert(y.jumps[i] == b.jumps[i]);
            assert(a.jumps[i].site == b.jumps[i].site);
        }
    }
}

proof fn lemma_marks_twins(names: Seq<Seq<char>>, ms: Seq<Mark<Arg>>, k: int)
    requires
        k <= ms.len(),
    ensures
        twins(marks_rewrite(names, ms, k, false), marks_rewrite(names, ms, k, true)),
    decreases k,
{
    if k > 0 {
        lemma_marks_twins(names, ms, k - 1);
        lemma_then_twins(
            marks_rewrite(names, ms, k - 1, false),
            marks_rewrite(names, ms, k - 1, true),
            mark_rewrite(names, ms, k - 1, false),
            mark_rewrite(names, ms, k - 1, true),
        );
    }
}

proof fn lemma_stmt_twins(names: Seq<Seq<char>>, st: Stmt<Arg>)
    ensures
        twins(stmt_rewrite(names, st, false), stmt_rewrite(names, st, true)),
{
    match st {
        Stmt::Local { init, rest, .. } => {
            lemma_marks_twins(names, init@, init@.len() as int);
            lemma_marks_twins(names, rest@, rest@.len() as int);
            lemma_then_twins(
                all_marks_rewrite(names, init@, false),
                all_marks_rewrite(names, init@, true),
                all_marks_rewrite(names, rest@, false),
                all_marks_rewrite(names, rest@, true),
            );
        },
        Stmt::Macro { .. } => {},
        Stmt::Expr { marks, .. } => {
            lemma_marks_twins(names, marks@, marks@.len() as int);
        },
        Stmt::Item => {},
    }
}

proof fn lemma_body_twins(s: Seq<Stmt<Arg>>, names: Seq<Seq<char>>, p: int)
    requires
        p <= s.len(),
    ensures
        twins(body_rewrite(s, names, p, false), body_rewrite(s, names, p, true)),
    decreases p,
{
    if p > 0 {
        lemma_body_twins(s, names, p - 1);
        lemma_stmt_twins(names, s[p - 1]);
        if !is_label(s[p - 1]) {
            lemma_then_twins(
                body_rewrite(s, names, p - 1, false),
                body_rewrite(s, names, p - 1, true),
                stmt_rewrite(names, s[p - 1], false),
                stmt_rewrite(names, s[p - 1], true),
            );
        }
    }
}

/// Debug mode. Turning `debug` on changes nothing but the announcements: the
/// rewrite fails with the same errors, or succeeds with the same hoisted
/// statements and arms, and with jumps from the same invocations to the same
/// states.
pub proof fn law_debug(body: Body<Arg>, strict: bool)
    ensures
        match (
            expand_spec(body, Options { debug: false, strict }),
            expand_spec(body, Options { debug: true, strict }),
        ) {
            (Err(a), Err(b)) => a == b,
            (Ok(a), Ok(b)) => {
                &&& a.hoisted == b.hoisted
                &&& a.arms == b.arms
                &&& a.jumps.len() == b.jumps.len()
                &&& forall|i: int|
                    0 <= i < a.jumps.len() ==> #[trigger] a.jumps[i].site == b.jumps[i].site
                        && a.jumps[i].state == b.jumps[i].state
            },
            _ => false,
        },
{
    let s = body.stmts@;
    lemma_body_twins(s, label_names(s, s.len() as int), s.len() as int);
}

/// Strict mode only refuses. Where it accepts a body, the rewrite is the
/// one of the default mode; where it refuses a body that the default mode
/// accepts, every error is one of its own.
pub proof fn law_strict(body: Body<Arg>, debug: bool)
    ensures
        expand_spec(body, Options { debug, strict: true }) matches Ok(e) ==> expand_spec(
            body,
            Options { debug, strict: false },
        ) == Ok::<_, Seq<Fault>>(e),
        expand_spec(body, Options { debug, strict: true }) matches Err(f) ==> (expand_spec(
            body,
            Options { debug, strict: false },
        ) is Ok ==> forall|i: int|
            0 <= i < f.len() ==> #[trigger] f[i] is LetAfterGoto || f[i] is SkippableLet),
{
    let s = body.stmts@;
    let n = s.len() as int;
    lemma_strict_kinds(s, label_names(s, n), n);
}

proof fn lemma_strict_kinds(s: Seq<Stmt<Arg>>, names: Seq<Seq<char>>, p: int)
    ensures
        forall|i: int|
            0 <= i < strict_faults(s, names, p).len() ==> #[trigger] strict_faults(
                s,
                names,
                p,
            )[i] is LetAfterGoto || strict_faults(s, names, p)[i] is SkippableLet,
    decreases p,
{
    if p > 0 {
        lemma_strict_kinds(s, names, p - 1);
    }
}

/// The lists of marks of a statement.
pub open spec fn mark_lists(st: Stmt<Arg>) -> Seq<Seq<Mark<Arg>>> {
    match st {
        Stmt::Local { init, rest, .. } => seq![init@, rest@],
        Stmt::Expr { marks, .. } => seq![marks@],
        Stmt::Item => Seq::empty(),
        Stmt::Macro { .. } => Seq::empty(),
    }
}

/// Whether a `goto!(…)` with this argument names no label.
pub open spec fn unresolved(names: Seq<Seq<char>>, arg: Arg) -> bool {
    match arg {
        Arg::Ident(n) => !names.contains(n@),
        Arg::Invalid(_) => true,
    }
}

/// Whether the statement is a `goto!(…)` that names no label.
pub open spec fn unresolved_goto(names: Seq<Seq<char>>, st: Stmt<Arg>) -> bool {
    &&& is_goto(st)
    &&& st matches Stmt::Macro { arg, .. } && unresolved(names, arg)
}

/// Whether mark `i`, outside any closure, is a `goto!(…)` that names no
/// label, or a closure with a `goto!(…)` anywhere in its body.
pub open spec fn bad_mark(names: Seq<Seq<char>>, ms: Seq<Mark<Arg>>, i: int) -> bool {
    &&& ms[i].depth == 0
    &&& {
        ||| ms[i].event matches Event::Macro { name, arg, .. } && is_word(name, "goto"@)
            && unresolved(names, arg)
        ||| ms[i].event is Closure && closure_goto(ms, i + 1) is Some
    }
}

proof fn lemma_label_faults_grow(s: Seq<Stmt<Arg>>, q: int, p: int)
    requires
        q <= p,
    ensures
        label_faults(s, q).len() <= label_faults(s, p).len(),
    decreases p - q,
{
    if q < p {
        lemma_label_faults_grow(s, q, p - 1);
    }
}

proof fn lemma_resolve_refuses(names: Seq<Seq<char>>, site: usize, arg: Arg, debug: bool)
    requires
        unresolved(names, arg),
    ensures
        resolve(names, site, arg, debug).faults.len() == 1,
{
    if let Arg::Ident(n) = arg {
        lemma_find_sound(names, n@, names.len() as int);
        if let Some(k) = find_label(names, n@) {
            assert(names[k as int] == n@);
        }
    }
}

proof fn lemma_marks_faults_grow(names: Seq<Seq<char>>, ms: Seq<Mark<Arg>>, i: int, k: int, debug: bool)
    requires
        0 <= i < k <= ms.len(),
    ensures
        mark_rewrite(names, ms, i, debug).faults.len() <= marks_rewrite(names, ms, k, debug).faults.len(),
    decreases k,
{
    if i < k - 1 {
        lemma_marks_faults_grow(names, ms, i, k - 1, debug);
    }
}

proof fn lemma_stmt_refuses(names: Seq<Seq<char>>, st: Stmt<Arg>, l: int, i: int, debug: bool)
    requires
        0 <= l < mark_lists(st).len(),
        0 <= i < mark_lists(st)[l].len(),
        bad_mark(names, mark_lists(st)[l], i),
    ensures
        stmt_rewrite(names, st, debug).faults.len() >= 1,
{
    let ms = mark_lists(st)[l];
    if let Event::Macro { name, site, arg } = ms[i].event {
        if is_word(name, "goto"@) && unresolved(names, arg) {
            lemma_resolve_refuses(names, site, arg, debug);
        }
    }
    assert(mark_rewrite(names, ms, i, debug).faults.len() >= 1);
    lemma_marks_faults_grow(names, ms, i, ms.len() as int, debug);
}

proof fn lemma_body_faults_grow(s: Seq<Stmt<Arg>>, names: Seq<Seq<char>>, q: int, p: int, debug: bool)
    requires
        rewritten(s, q),
        q < p <= s.len(),
    ensures
        stmt_rewrite(names, s[q], debug).faults.len() <= body_rewrite(s, names, p, debug).faults.len(),
    decreases p,
{
    if q < p - 1 {
        lemma_body_faults_grow(s, names, q, p - 1, debug);
    }
}

/// Refusals. The rewrite fails when a label is not an identifier; when two
/// labels share a name; and when, in any statement but a label (hoisted
/// `let`s included, items declared in the body excluded) and outside any
/// closure, a `goto!(…)` names no label or is not an identifier, or a
/// closure holds a `goto!(…)` anywhere in its body, nested closures included.
pub proof fn law_refusals(body: Body<Arg>, opts: Options)
    ensures
        ({
            let s = body.stmts@;
            exists|p: int|
                0 <= p < s.len() && is_label(#[trigger] s[p]) && s[p] matches Stmt::Macro {
                    arg: Arg::Invalid(_),
                    ..
                }
        }) ==> expand_spec(body, opts) is Err,
        ({
            let s = body.stmts@;
            let names = label_names(s, s.len() as int);
            exists|i: int, j: int| 0 <= i < j < names.len() && #[trigger] names[i] == #[trigger] names[j]
        }) ==> expand_spec(body, opts) is Err,
        ({
            let s = body.stmts@;
            let names = label_names(s, s.len() as int);
            exists|q: int|
                rewritten(s, q) && #[trigger] unresolved_goto(names, s[q])
        }) ==> expand_spec(body, opts) is Err,
        ({
            let s = body.stmts@;
            let names = label_names(s, s.len() as int);
            exists|q: int, l: int, i: int|
                rewritten(s, q) && 0 <= l < mark_lists(s[q]).len() && 0 <= i < mark_lists(
                    s[q],
                )[l].len() && #[trigger] bad_mark(names, mark_lists(s[q])[l], i)
        }) ==> expand_spec(body, opts) is Err,
{
    let s = body.stmts@;
    let n = s.len() as int;
    let names = label_names(s, n);
    if exists|p: int|
        0 <= p < s.len() && is_label(#[trigger] s[p]) && s[p] matches Stmt::Macro {
            arg: Arg::Invalid(_),
            ..
        } {
        let p = choose|p: int|
            0 <= p < s.len() && is_label(#[trigger] s[p]) && s[p] matches Stmt::Macro {
                arg: Arg::Invalid(_),
                ..
            };
        assert(label_faults(s, p + 1).len() >= 1);
        lemma_label_faults_grow(s, p + 1, n);
    }
    if exists|i: int, j: int| 0 <= i < j < names.len() && #[trigger] names[i] == #[trigger] names[j] {
        if label_faults(s, n).len() == 0 && duplicate_faults(s, n).len() == 0 {
            lemma_names_distinct(s, n);
        }
    }
    if exists|q: int|
        rewritten(s, q) && #[trigger] unresolved_goto(names, s[q]) {
        let q = choose|q: int|
            rewritten(s, q) && #[trigger] unresolved_goto(names, s[q]);
        if let Stmt::Macro { site, arg, .. } = s[q] {
            lemma_resolve_refuses(names, site, arg, opts.debug);
        }
        lemma_body_faults_grow(s, names, q, n, opts.debug);
    }
    if exists|q: int, l: int, i: int|
        rewritten(s, q) && 0 <= l < mark_lists(s[q]).len() && 0 <= i < mark_lists(s[q])[l].len()
            && #[trigger] bad_mark(names, mark_lists(s[q])[l], i) {
        let (q, l, i) = choose|q: int, l: int, i: int|
            rewritten(s, q) && 0 <= l < mark_lists(s[q]).len() && 0 <= i < mark_lists(s[q])[l].len()
                && #[trigger] bad_mark(names, mark_lists(s[q])[l], i);
        lemma_stmt_refuses(names, s[q], l, i, opts.debug);
        lemma_body_faults_grow(s, names, q, n, opts.debug);
    }
}

/// Whether the argument of the macro statement is an identifier.
pub open spec fn names_ident(st: Stmt<Arg>) -> bool {
    st matches Stmt::Macro { arg: Arg::Ident(_), .. }
}

proof fn lemma_no_label_faults(s: Seq<Stmt<Arg>>, p: int)
    requires
        p <= s.len(),
        forall|q: int|
            0 <= q < s.len() && is_label(#[trigger] s[q]) ==> s[q] matches Stmt::Macro {
                arg: Arg::Ident(_),
                ..
            },
    ensures
        label_faults(s, p).len() == 0,
    decreases p,
{
    if p > 0 {
        lemma_no_label_faults(s, p - 1);
    }
}

proof fn lemma_no_duplicates(s: Seq<Stmt<Arg>>, p: int)
    requires
        0 <= p <= s.len(),
        forall|i: int, j: int|
            0 <= i < j < label_names(s, p).len() ==> #[trigger] label_names(s, p)[i]
                != #[trigger] label_names(s, p)[j],
    ensures
        duplicate_faults(s, p).len() == 0,
    decreases p,
{
    if p > 0 {
        let names = label_names(s, p);
        let prev = label_names(s, p - 1);
        if is_label(s[p - 1]) {
            assert forall|i: int, j: int| 0 <= i < j < prev.len() implies #[trigger] prev[i]
                != #[trigger] prev[j] by {
                assert(names[i] == prev[i] && names[j] == prev[j]);
            }
            lemma_no_duplicates(s, p - 1);
            if let Stmt::Macro { arg: Arg::Ident(n), .. } = s[p - 1] {
                if prev.contains(n@) {
                    let i = choose|i: int| 0 <= i < prev.len() && prev[i] == n@;
                    assert(names[i] == names[names.len() - 1]);
                }
            }
        } else {
            lemma_no_duplicates(s, p - 1);
        }
    }
}

proof fn lemma_resolve_accepts(names: Seq<Seq<char>>, site: usize, arg: Arg, debug: bool)
    requires
        !unresolved(names, arg),
    ensures
        resolve(names, site, arg, debug).faults.len() == 0,
{
    if let Arg::Ident(n) = arg {
        lemma_find_sound(names, n@, names.len() as int);
        if find_label(names, n@) is None {
            let i = choose|i: int| 0 <= i < names.len() && names[i] == n@;
            assert(names[i] != n@);
        }
    }
}

proof fn lemma_marks_accept(names: Seq<Seq<char>>, ms: Seq<Mark<Arg>>, k: int, debug: bool)
    requires
        k <= ms.len(),
        forall|i: int| 0 <= i < ms.len() ==> !#[trigger] bad_mark(names, ms, i),
    ensures
        marks_rewrite(names, ms, k, debug).faults.len() == 0,
    decreases k,
{
    if k > 0 {
        lemma_marks_accept(names, ms, k - 1, debug);
        assert(!bad_mark(names, ms, k - 1));
        if ms[k - 1].depth == 0 {
            if let Event::Macro { name, site, arg } = ms[k - 1].event {
                if is_word(name, "goto"@) {
                    lemma_resolve_accepts(names, site, arg, debug);
                }
            }
        }
    }
}

proof fn lemma_stmt_accepts(names: Seq<Seq<char>>, st: Stmt<Arg>, debug: bool)
    requires
        !unresolved_goto(names, st),
        forall|l: int, i: int|
            0 <= l < mark_lists(st).len() && 0 <= i < mark_lists(st)[l].len() ==> !#[trigger] bad_mark(
                names,
                mark_lists(st)[l],
                i,
            ),
    ensures
        stmt_rewrite(names, st, debug).faults.len() == 0,
{
    let lists = mark_lists(st);
    assert forall|l: int| 0 <= l < lists.len() implies marks_rewrite(
        names,
        #[trigger] lists[l],
        lists[l].len() as int,
        debug,
    ).faults.len() == 0 by {
        assert forall|i: int| 0 <= i < lists[l].len() implies !#[trigger] bad_mark(
            names,
            lists[l],
            i,
        ) by {}
        lemma_marks_accept(names, lists[l], lists[l].len() as int, debug);
    }
    match st {
        Stmt::Local { init, rest, .. } => {
            assert(lists[0] == init@ && lists[1] == rest@);
        },
        Stmt::Macro { name, site, arg } => {
            if is_word(name, "goto"@) {
                lemma_resolve_accepts(names, site, arg, debug);
            }
        },
        Stmt::Expr { marks, .. } => {
            assert(lists[0] == marks@);
        },
        Stmt::Item => {},
    }
}

proof fn lemma_body_accepts(s: Seq<Stmt<Arg>>, names: Seq<Seq<char>>, p: int, debug: bool)
    requires
        p <= s.len(),
        forall|q: int| rewritten(s, q) ==> !#[trigger] unresolved_goto(names, s[q]),
        forall|q: int, l: int, i: int|
            rewritten(s, q) && 0 <= l < mark_lists(s[q]).len() && 0 <= i < mark_lists(s[q])[l].len()
                ==> !#[trigger] bad_mark(names, mark_lists(s[q])[l], i),
    ensures
        body_rewrite(s, names, p, debug).faults.len() == 0,
    decreases p,
{
    if p > 0 {
        lemma_body_accepts(s, names, p - 1, debug);
        if rewritten(s, p - 1) {
            assert(!unresolved_goto(names, s[p - 1]));
            assert forall|l: int, i: int|
                0 <= l < mark_lists(s[p - 1]).len() && 0 <= i < mark_lists(s[p - 1])[l].len()
                    implies !#[trigger] bad_mark(names, mark_lists(s[p - 1])[l], i) by {
                assert(rewritten(s, p - 1));
            }
            lemma_stmt_accepts(names, s[p - 1], debug);
        }
    }
}

/// Acceptance. When every label is an identifier, no two labels share a
/// name, no statement but a label holds, outside closures, a `goto!(…)` that
/// names no label or a closure with a `goto!(…)` anywhere in its body, and
/// strict mode, if on, objects to nothing, the rewrite succeeds.
pub proof fn law_acceptance(body: Body<Arg>, opts: Options)
    ensures
        ({
            let s = body.stmts@;
            let n = s.len() as int;
            let names = label_names(s, n);
            &&& forall|p: int|
                0 <= p < n && is_label(#[trigger] s[p]) ==> names_ident(s[p])
            &&& forall|i: int, j: int|
                0 <= i < j < names.len() ==> #[trigger] names[i] != #[trigger] names[j]
            &&& forall|q: int| rewritten(s, q) ==> !#[trigger] unresolved_goto(names, s[q])
            &&& forall|q: int, l: int, i: int|
                rewritten(s, q) && 0 <= l < mark_lists(s[q]).len() && 0 <= i < mark_lists(s[q])[l].len()
                    ==> !#[trigger] bad_mark(names, mark_lists(s[q])[l], i)
            &&& opts.strict ==> strict_faults(s, names, n).len() == 0
        }) ==> expand_spec(body, opts) is Ok,
{
    let s = body.stmts@;
    let n = s.len() as int;
    let names = label_names(s, n);
    if {
        &&& forall|p: int|
            0 <= p < n && is_label(#[trigger] s[p]) ==> names_ident(s[p])
        &&& forall|i: int, j: int|
            0 <= i < j < names.len() ==> #[trigger] names[i] != #[trigger] names[j]
        &&& forall|q: int| rewritten(s, q) ==> !#[trigger] unresolved_goto(names, s[q])
        &&& forall|q: int, l: int, i: int|
            rewritten(s, q) && 0 <= l < mark_lists(s[q]).len() && 0 <= i < mark_lists(s[q])[l].len()
                ==> !#[trigger] bad_mark(names, mark_lists(s[q])[l], i)
    } {
        lemma_no_label_faults(s, n);
        lemma_no_duplicates(s, n);
        lemma_body_accepts(s, names, n, opts.debug);
    }
}

/// The first statement at or after `x` that runs in an arm.
pub open spec fn next_kept<A>(s: Seq<Stmt<A>>, x: int) -> Option<nat>
    decreases s.len() - x,
{
    if x < 0 || x >= s.len() {
        None
    } else if kept(s, x) {
        Some(x as nat)
    } else {
        next_kept(s, x + 1)
    }
}

/// The positions of the labels among the first `p` statements, in order.
pub open spec fn label_positions<A>(s: Seq<Stmt<A>>, p: int) -> Seq<nat>
    decreases p,
{
    if p <= 0 {
        Seq::empty()
    } else if is_label(s[p - 1]) {
        label_positions(s, p - 1).push((p - 1) as nat)
    } else {
        label_positions(s, p - 1)
    }
}

/// The statement that the state machine runs first on entering state `k`:
/// the first statement of the first arm from `k` on that has one, following
/// the steps to the next state; `None` when it returns, or runs out of arms,
/// first.
pub open spec fn enter(arms: Seq<ArmView>, k: int) -> Option<nat>
    decreases arms.len() - k,
{
    if k < 0 || k >= arms.len() {
        None
    } else if arms[k].steps.len() > 0 {
        Some(arms[k].steps[0].index)
    } else {
        match arms[k].next {
            Some(j) => if k < j <= arms.len() {
                enter(arms, j as int)
            } else {
                None
            },
            None => None,
        }
    }
}

/// The statement that the state machine runs after step `i` of arm `k`
/// completes normally, or `None` when it returns or runs out of arms.
pub open spec fn after_step(arms: Seq<ArmView>, k: int, i: int) -> Option<nat> {
    if i + 1 < arms[k].steps.len() {
        Some(arms[k].steps[i + 1].index)
    } else {
        match arms[k].next {
            Some(j) => if j > k {
                enter(arms, j as int)
            } else {
                None
            },
            None => None,
        }
    }
}

/// The first statement of the first segment from `k` on that keeps one.
pub open spec fn first_from(ps: Seq<Seq<nat>>, k: int) -> Option<nat>
    decreases ps.len() - k,
{
    if k < 0 || k >= ps.len() {
        None
    } else if ps[k].len() > 0 {
        Some(ps[k][0])
    } else {
        first_from(ps, k + 1)
    }
}

proof fn lemma_next_kept<A>(s: Seq<Stmt<A>>, x: int)
    requires
        0 <= x,
    ensures
        next_kept(s, x) matches Some(q) ==> x <= q < s.len() && kept(s, q as int) && forall|
            r: int,
        |
            x <= r < q ==> !kept(s, r),
        next_kept(s, x) is None ==> forall|r: int| x <= r ==> !kept(s, r),
    decreases s.len() - x,
{
    if x < s.len() && !kept(s, x) {
        lemma_next_kept(s, x + 1);
    }
}

proof fn lemma_first_from(ps: Seq<Seq<nat>>, k: int)
    requires
        0 <= k,
    ensures
        first_from(ps, k) matches Some(q) ==> exists|j: int|
            k <= j < ps.len() && ps[j].len() > 0 && q == ps[j][0] && forall|i: int|
                k <= i < j ==> #[trigger] ps[i].len() == 0,
        first_from(ps, k) is None ==> forall|j: int| k <= j < ps.len() ==> #[trigger] ps[j].len() == 0,
    decreases ps.len() - k,
{
    if k < ps.len() && ps[k].len() == 0 {
        lemma_first_from(ps, k + 1);
        if let Some(q) = first_from(ps, k + 1) {
            let j = choose|j: int|
                k + 1 <= j < ps.len() && ps[j].len() > 0 && q == ps[j][0] && forall|i: int|
                    k + 1 <= i < j ==> #[trigger] ps[i].len() == 0;
            assert(forall|i: int| k <= i < j ==> #[trigger] ps[i].len() == 0);
        }
    }
}

/// The first statement kept at or after `x` is the first statement of the
/// first segment from `k` on that keeps one, when the statements kept at or
/// after `x` are exactly those of the segments from `k` on.
proof fn lemma_entry(s: Seq<Stmt<Arg>>, x: int, k: int)
    requires
        0 <= x,
        0 <= k,
        forall|q: int| #[trigger] kept(s, q) ==> (q >= x <==> segment_of(s, q) >= k),
    ensures
        next_kept(s, x) == first_from(arm_positions(s, s.len() as int), k),
{
    let n = s.len() as int;
    let ps = arm_positions(s, n);
    lemma_arm_shape(s, n);
    lemma_next_kept(s, x);
    lemma_first_from(ps, k);
    match first_from(ps, k) {
        Some(q) => {
            let j = choose|j: int|
                k <= j < ps.len() && ps[j].len() > 0 && q == ps[j][0] && forall|i: int|
                    k <= i < j ==> #[trigger] ps[i].len() == 0;
            assert(kept(s, ps[j][0] as int) && segment_of(s, ps[j][0] as int) == j);
            assert forall|r: int| x <= r < q implies !kept(s, r) by {
                if kept(s, r) {
                    let g = segment_of(s, r) as int;
                    lemma_segment_monotone(s, r, q as int);
                    assert(ps[g].contains(r as nat));
                    if g < j {
                        assert(ps[g].len() == 0);
                    } else {
                        let i = choose|i: int| 0 <= i < ps[g].len() && ps[g][i] == r as nat;
                        if i > 0 {
                            assert(ps[g][0] < ps[g][i]);
                        }
                    }
                }
            }
            lemma_next_kept(s, x);
            match next_kept(s, x) {
                Some(q2) => {
                    if q2 < q {
                    } else if q2 > q {
                        assert(!kept(s, q as int));
                    }
                },
                None => {
                    assert(!kept(s, q as int));
                },
            }
        },
        None => {
            if let Some(q2) = next_kept(s, x) {
                let g = segment_of(s, q2 as int) as int;
                lemma_segment_monotone(s, q2 as int, n);
                assert(kept(s, q2 as int));
                assert(q2 as int >= x);
                lemma_kept_in_arm(s, q2 as int);
                assert(ps[g].len() == 0);
            }
        },
    }
}

/// Entering state `k` runs the first statement of the first segment from
/// `k` on that keeps one.
proof fn lemma_enter(s: Seq<Stmt<Arg>>, rv: bool, k: int)
    requires
        0 <= k,
    ensures
        enter(arms_of(s, rv), k) == first_from(arm_positions(s, s.len() as int), k),
    decreases arm_positions(s, s.len() as int).len() - k,
{
    let ps = arm_positions(s, s.len() as int);
    let arms = arms_of(s, rv);
    if k < ps.len() && ps[k].len() == 0 {
        lemma_enter(s, rv, k + 1);
        if k == ps.len() - 1 {
            assert(first_from(ps, k + 1) is None);
        }
    }
}

proof fn lemma_label_positions(s: Seq<Stmt<Arg>>, p: int)
    requires
        0 <= p <= s.len(),
    ensures
        label_positions(s, p).len() == segment_of(s, p),
        label_positions(s, p).len() == label_names(s, p).len(),
        forall|t: int|
            0 <= t < label_positions(s, p).len() ==> {
                let l = #[trigger] label_positions(s, p)[t] as int;
                &&& l < p
                &&& is_label(s[l])
                &&& label_name(s[l]) == label_names(s, p)[t]
                &&& segment_of(s, l) == t
            },
        forall|q: int, t: int|
            0 <= q <= p && 0 <= t < label_positions(s, p).len() ==> (q > #[trigger] label_positions(s, p)[t]
                <==> #[trigger] segment_of(s, q) > t),
    decreases p,
{
    if p > 0 {
        lemma_label_positions(s, p - 1);
        let prev = label_positions(s, p - 1);
        let cur = label_positions(s, p);
        assert forall|q: int, t: int|
            0 <= q <= p && 0 <= t < cur.len() implies (q > #[trigger] cur[t] <==> #[trigger] segment_of(s, q)
            > t) by {
            if q == p {
                lemma_segment_monotone(s, cur[t] as int, p - 1);
                if t < prev.len() {
                    assert(cur[t] == prev[t]);
                    assert(segment_of(s, p - 1) > t);
                }
            } else if t < prev.len() {
                assert(cur[t] == prev[t]);
            } else {
                lemma_segment_monotone(s, q, p - 1);
            }
        }
    }
}

/// Control flow. The state machine runs the statements of the arms, in their
/// segments as the body would run them, labels and jumps included: it
/// starts with the first of them; after one completes normally it runs the
/// next one of the body; entering state `t` (where a jump to the `t`-th
/// label, counting the first as the 1st, goes) it runs the first one after
/// that label; and where the body runs out of them, it has nothing left to
/// run: it returns, or leaves its last state.
pub proof fn law_control(body: Body<Arg>, opts: Options)
    ensures
        expand_spec(body, opts) matches Ok(e) ==> {
            let s = body.stmts@;
            let n = s.len() as int;
            let labels = label_positions(s, n);
            &&& labels.len() + 1 == e.arms.len()
            &&& forall|t: int|
                0 <= t < labels.len() ==> is_label(s[#[trigger] labels[t] as int]) && label_name(
                    s[labels[t] as int],
                ) == label_names(s, n)[t]
            &&& enter(e.arms, 0) == next_kept(s, 0)
            &&& forall|t: int|
                1 <= t < e.arms.len() ==> #[trigger] enter(e.arms, t) == next_kept(
                    s,
                    labels[t - 1] as int + 1,
                )
            &&& forall|k: int, i: int|
                0 <= k < e.arms.len() && 0 <= i < e.arms[k].steps.len() ==> #[trigger] after_step(
                    e.arms,
                    k,
                    i,
                ) == next_kept(s, e.arms[k].steps[i].index as int + 1)
        },
{
    if let Ok(e) = expand_spec(body, opts) {
        let s = body.stmts@;
        let n = s.len() as int;
        let rv = body.returns_value;
        let labels = label_positions(s, n);
        let ps = arm_positions(s, n);
        lemma_arm_shape(s, n);
        lemma_label_positions(s, n);
        assert(e.arms == arms_of(s, rv));
        lemma_enter(s, rv, 0);
        lemma_entry(s, 0, 0);
        assert forall|t: int| 1 <= t < e.arms.len() implies #[trigger] enter(e.arms, t)
            == next_kept(s, labels[t - 1] as int + 1) by {
            lemma_enter(s, rv, t);
            assert forall|q: int| #[trigger] kept(s, q) implies (q >= labels[t - 1] as int + 1
                <==> segment_of(s, q) >= t) by {
                assert(q > labels[t - 1] <==> segment_of(s, q) > t - 1);
            }
            lemma_entry(s, labels[t - 1] as int + 1, t);
        }
        assert forall|k: int, i: int|
            0 <= k < e.arms.len() && 0 <= i < e.arms[k].steps.len() implies #[trigger] after_step(
                e.arms,
                k,
                i,
            ) == next_kept(s, e.arms[k].steps[i].index as int + 1) by {
            let p = ps[k][i] as int;
            assert(e.arms[k].steps[i].index == ps[k][i]);
            lemma_next_kept(s, p + 1);
            if i + 1 < ps[k].len() {
                let q = ps[k][i + 1] as int;
                assert(e.arms[k].steps[i + 1].index == ps[k][i + 1]);
                assert forall|r: int| p + 1 <= r < q implies !kept(s, r) by {
                    if kept(s, r) {
                        lemma_segment_monotone(s, p, r);
                        lemma_segment_monotone(s, r, q);
                        assert(ps[k].contains(r as nat));
                        let m = choose|m: int| 0 <= m < ps[k].len() && ps[k][m] == r as nat;
                        if m <= i {
                            if m < i {
                                assert(ps[k][m] < ps[k][i]);
                            }
                        } else if m > i + 1 {
                            assert(ps[k][i + 1] < ps[k][m]);
                        }
                    }
                }
                match next_kept(s, p + 1) {
                    Some(q2) => {
                        if q2 < q {
                        } else if q2 > q {
                            assert(!kept(s, q));
                        }
                    },
                    None => {
                        assert(!kept(s, q));
                    },
                }
            } else {
                assert forall|q: int| #[trigger] kept(s, q) implies (q >= p + 1 <==> segment_of(s, q)
                    >= k + 1) by {
                    if q >= p + 1 && segment_of(s, q) < k + 1 {
                        lemma_segment_monotone(s, p, q);
                        assert(ps[k].contains(q as nat));
                        let m = choose|m: int| 0 <= m < ps[k].len() && ps[k][m] == q as nat;
                        if m < i {
                            assert(ps[k][m] < ps[k][i]);
                        }
                    }
                    if q < p + 1 && segment_of(s, q) >= k + 1 {
                        lemma_segment_monotone(s, q, p);
                    }
                }
                lemma_entry(s, p + 1, k + 1);
                lemma_enter(s, rv, k + 1);
                if k == e.arms.len() - 1 {
                    lemma_first_from(ps, k + 1);
                }
            }
        }
    }
}

proof fn lemma_hoisted_positions<A>(s: Seq<Stmt<A>>, p: int)
    requires
        0 <= p <= s.len(),
    ensures
        forall|i: int, j: int|
            0 <= i < j < hoisted_positions(s, p).len() ==> hoisted_positions(s, p)[i].index
                < hoisted_positions(s, p)[j].index,
        forall|i: int|
            0 <= i < hoisted_positions(s, p).len() ==> {
                let h = #[trigger] hoisted_positions(s, p)[i];
                &&& hoisted(s, h.index as int)
                &&& h.index < p
                &&& h.rerun == (place(s, h.index as int) == Place::Rerun)
            },
        forall|q: int|
            0 <= q < p && #[trigger] hoisted(s, q) ==> exists|i: int|
                0 <= i < hoisted_positions(s, p).len() && hoisted_positions(s, p)[i].index == q,
    decreases p,
{
    if p > 0 {
        lemma_hoisted_positions(s, p - 1);
        let prev = hoisted_positions(s, p - 1);
        let cur = hoisted_positions(s, p);
        assert forall|q: int| 0 <= q < p && #[trigger] hoisted(s, q) implies exists|i: int|
            0 <= i < cur.len() && cur[i].index == q by {
            if q < p - 1 {
                let i = choose|i: int| 0 <= i < prev.len() && prev[i].index == q;
                assert(cur[i] == prev[i]);
            } else {
                assert(cur[cur.len() - 1].index == q);
            }
        }
        assert forall|i: int| 0 <= i < cur.len() implies {
            let h = #[trigger] cur[i];
            &&& hoisted(s, h.index as int)
            &&& h.index < p
            &&& h.rerun == (place(s, h.index as int) == Place::Rerun)
        } by {
            if i < prev.len() {
                assert(cur[i] == prev[i]);
            }
        }
        assert forall|i: int, j: int| 0 <= i < j < cur.len() implies cur[i].index < cur[j].index by {
            if j < prev.len() {
                assert(cur[i] == prev[i] && cur[j] == prev[j]);
            } else {
                assert(cur[i] == prev[i]);
                assert(prev[i].index < p - 1);
            }
        }
    }
}

/// Hoisting. The statements placed in front of the state machine are, in
/// the order of the body, exactly the `let` statements that no `goto!(…)`
/// statement precedes within their segment and whose initializer and `else`
/// block do not jump; each stands there whole, so that every segment sees
/// its names. One of them is also initialized again in the arm of its
/// segment, on each arrival there, exactly when it stands in a labelled
/// segment, binds one name that no other `let` of the body binds, is
/// assignable, and its initializer mentions no name.
pub proof fn law_hoisting(body: Body<Arg>, opts: Options)
    ensures
        expand_spec(body, opts) matches Ok(e) ==> {
            let s = body.stmts@;
            &&& forall|i: int, j: int|
                0 <= i < j < e.hoisted.len() ==> e.hoisted[i].index < e.hoisted[j].index
            &&& forall|q: int|
                0 <= q < s.len() ==> ((exists|i: int|
                    0 <= i < e.hoisted.len() && e.hoisted[i].index == q) <==> {
                    &&& #[trigger] s[q] is Local
                    &&& !after_goto(s, q)
                    &&& !marks_jump(s[q]->init@)
                    &&& !marks_jump(s[q]->rest@)
                })
            &&& forall|i: int|
                0 <= i < e.hoisted.len() ==> {
                    let h = #[trigger] e.hoisted[i];
                    let q = h.index as int;
                    &&& h.rerun <==> kept(s, q)
                    &&& h.rerun <==> {
                        &&& segment_of(s, q) >= 1
                        &&& s[q]->form == LetForm::Assignable
                        &&& s[q]->reads@.len() == 0
                        &&& sole_binder(s, q)
                    }
                }
        },
{
    if let Ok(e) = expand_spec(body, opts) {
        let s = body.stmts@;
        lemma_hoisted_positions(s, s.len() as int);
        assert forall|q: int| 0 <= q < s.len() implies ((exists|i: int|
            0 <= i < e.hoisted.len() && e.hoisted[i].index == q) <==> {
            &&& #[trigger] s[q] is Local
            &&& !after_goto(s, q)
            &&& !marks_jump(s[q]->init@)
            &&& !marks_jump(s[q]->rest@)
        }) by {
            if exists|i: int| 0 <= i < e.hoisted.len() && e.hoisted[i].index == q {
                let i = choose|i: int| 0 <= i < e.hoisted.len() && e.hoisted[i].index == q;
                assert(hoisted(s, e.hoisted[i].index as int));
            }
            if hoisted(s, q) {
                assert(exists|i: int| 0 <= i < e.hoisted.len() && e.hoisted[i].index == q);
            }
        }
        assert forall|i: int| 0 <= i < e.hoisted.len() implies {
            let h = #[trigger] e.hoisted[i];
            let q = h.index as int;
            &&& h.rerun <==> kept(s, q)
            &&& h.rerun <==> {
                &&& segment_of(s, q) >= 1
                &&& s[q]->form == LetForm::Assignable
                &&& s[q]->reads@.len() == 0
                &&& sole_binder(s, q)
            }
        } by {
            let q = e.hoisted[i].index as int;
            assert(hoisted(s, q));
        }
    }
}

/// Whether marks `start` to `j` all stand in a closure.
pub open spec fn in_run(ms: Seq<Mark<Arg>>, start: int, j: int) -> bool {
    &&& start <= j < ms.len()
    &&& forall|k: int| start <= k <= j ==> #[trigger] ms[k].depth > 0
}

/// Whether mark `j` is the `goto!(…)` invocation `site`.
pub open spec fn goto_at(ms: Seq<Mark<Arg>>, j: int, site: usize) -> bool {
    ms[j].event matches Event::Macro { name, site: t, .. } && is_word(name, "goto"@) && t == site
}

/// The first `goto!(…)` of a closure. For the closure whose body starts at
/// mark `start` (the run of marks deeper than the closure that follows it),
/// the `goto!(…)` reported is the first one of that run, nested closures
/// included; none is reported only when the run holds none.
pub proof fn law_closure_first(ms: Seq<Mark<Arg>>, start: int)
    requires
        0 <= start,
    ensures
        closure_goto(ms, start) matches Some(site) ==> exists|j: int|
            {
                &&& #[trigger] in_run(ms, start, j)
                &&& goto_at(ms, j, site)
                &&& forall|k: int| start <= k < j ==> !is_goto_event(#[trigger] ms[k].event)
            },
        closure_goto(ms, start) is None ==> forall|j: int|
            #[trigger] in_run(ms, start, j) ==> !is_goto_event(ms[j].event),
    decreases ms.len() - start,
{
    if start < ms.len() && ms[start].depth != 0 && !is_goto_event(ms[start].event) {
        law_closure_first(ms, start + 1);
        if let Some(site) = closure_goto(ms, start) {
            let j = choose|j: int|
                {
                    &&& #[trigger] in_run(ms, start + 1, j)
                    &&& goto_at(ms, j, site)
                    &&& forall|k: int| start + 1 <= k < j ==> !is_goto_event(#[trigger] ms[k].event)
                };
            assert(in_run(ms, start, j));
        } else {
            assert forall|j: int| #[trigger] in_run(ms, start, j) implies !is_goto_event(
                ms[j].event,
            ) by {
                if j > start {
                    assert(in_run(ms, start + 1, j));
                }
            }
        }
    } else if start < ms.len() && ms[start].depth != 0 {
        assert(in_run(ms, start, start));
    } else if start < ms.len() {
        assert forall|j: int| #[trigger] in_run(ms, start, j) implies !is_goto_event(
            ms[j].event,
        ) by {
            assert(ms[start].depth > 0);
        }
    }
}

/// Placement. Every statement of the body but a label ends up in the
/// rewritten function: in front of the state machine, or in the arm of its
/// segment.
pub proof fn law_every_statement_placed(body: Body<Arg>, opts: Options)
    ensures
        expand_spec(body, opts) matches Ok(e) ==> {
            let s = body.stmts@;
            forall|q: int|
                0 <= q < s.len() && !is_label(#[trigger] s[q]) ==> (exists|i: int|
                    0 <= i < e.hoisted.len() && e.hoisted[i].index == q) || arm_indices(
                    e.arms,
                    segment_of(s, q) as int,
                ).contains(q as nat)
        },
{
    if let Ok(e) = expand_spec(body, opts) {
        let s = body.stmts@;
        let n = s.len() as int;
        law_segments(body, opts);
        lemma_hoisted_positions(s, n);
        assert forall|q: int| 0 <= q < s.len() && !is_label(#[trigger] s[q]) implies (exists|i: int|
            0 <= i < e.hoisted.len() && e.hoisted[i].index == q) || arm_indices(
            e.arms,
            segment_of(s, q) as int,
        ).contains(q as nat) by {
            if kept(s, q) {
                assert(arm_indices(e.arms, segment_of(s, q) as int).contains(q as nat));
            } else {
                assert(hoisted(s, q));
                assert(e.hoisted == hoisted_positions(s, n));
                assert(exists|i: int|
                    0 <= i < hoisted_positions(s, n).len() && hoisted_positions(s, n)[i].index == q);
            }
        }
    }
}

/// Whether the statement is `goto!(x)` at invocation `site`.
pub open spec fn goto_names(st: Stmt<Arg>, site: usize, x: Seq<char>) -> bool {
    &&& is_goto(st)
    &&& (st matches Stmt::Macro { site: t, arg: Arg::Ident(n), .. } && t == site && n@ == x)
}

/// Whether the mark is `goto!(x)`, outside any closure, at invocation `site`.
pub open spec fn mark_names(m: Mark<Arg>, site: usize, x: Seq<char>) -> bool {
    &&& m.depth == 0
    &&& is_goto_event(m.event)
    &&& (m.event matches Event::Macro { site: t, arg: Arg::Ident(n), .. } && t == site && n@ == x)
}

/// Whether some jump replaces invocation `site` and sets the state of the
/// label named `x`.
pub open spec fn has_jump_to(jumps: Seq<JumpView>, site: usize, x: Seq<char>, names: Seq<Seq<char>>) -> bool {
    exists|j: int|
        0 <= j < jumps.len() && #[trigger] jumps[j].site == site && 1 <= jumps[j].state <= names.len()
            && names[jumps[j].state - 1] == x
}

proof fn lemma_then_has(a: Rewrite, b: Rewrite, site: usize, x: Seq<char>, names: Seq<Seq<char>>)
    ensures
        has_jump_to(a.jumps, site, x, names) ==> has_jump_to(then(a, b).jumps, site, x, names),
        has_jump_to(b.jumps, site, x, names) ==> has_jump_to(then(a, b).jumps, site, x, names),
{
    let c = then(a, b).jumps;
    if has_jump_to(a.jumps, site, x, names) {
        let j = choose|j: int|
            0 <= j < a.jumps.len() && #[trigger] a.jumps[j].site == site && 1 <= a.jumps[j].state
                <= names.len() && names[a.jumps[j].state - 1] == x;
        assert(c[j] == a.jumps[j]);
    }
    if has_jump_to(b.jumps, site, x, names) {
        let j = choose|j: int|
            0 <= j < b.jumps.len() && #[trigger] b.jumps[j].site == site && 1 <= b.jumps[j].state
                <= names.len() && names[b.jumps[j].state - 1] == x;
        assert(c[a.jumps.len() + j] == b.jumps[j]);
    }
}

proof fn lemma_resolve_has(names: Seq<Seq<char>>, site: usize, n: String, debug: bool)
    requires
        names.contains(n@),
    ensures
        has_jump_to(resolve(names, site, Arg::Ident(n), debug).jumps, site, n@, names),
{
    lemma_find_sound(names, n@, names.len() as int);
    if find_label(names, n@) is None {
        let i = choose|i: int| 0 <= i < names.len() && names[i] == n@;
        assert(names[i] != n@);
    }
    let r = resolve(names, site, Arg::Ident(n), debug);
    assert(r.jumps[0].site == site);
}

proof fn lemma_marks_has(names: Seq<Seq<char>>, ms: Seq<Mark<Arg>>, i: int, k: int, site: usize, x: Seq<char>, debug: bool)
    requires
        0 <= i < k <= ms.len(),
        mark_names(ms[i], site, x),
        names.contains(x),
    ensures
        has_jump_to(marks_rewrite(names, ms, k, debug).jumps, site, x, names),
    decreases k,
{
    if i < k - 1 {
        lemma_marks_has(names, ms, i, k - 1, site, x, debug);
        lemma_then_has(marks_rewrite(names, ms, k - 1, debug), mark_rewrite(names, ms, k - 1, debug), site, x, names);
    } else {
        if let Event::Macro { arg: Arg::Ident(n), .. } = ms[i].event {
            lemma_resolve_has(names, site, n, debug);
        }
        lemma_then_has(marks_rewrite(names, ms, k - 1, debug), mark_rewrite(names, ms, k - 1, debug), site, x, names);
    }
}

proof fn lemma_stmt_has(names: Seq<Seq<char>>, st: Stmt<Arg>, l: int, i: int, site: usize, x: Seq<char>, debug: bool)
    requires
        0 <= l < mark_lists(st).len(),
        0 <= i < mark_lists(st)[l].len(),
        mark_names(mark_lists(st)[l][i], site, x),
        names.contains(x),
    ensures
        has_jump_to(stmt_rewrite(names, st, debug).jumps, site, x, names),
{
    let ms = mark_lists(st)[l];
    lemma_marks_has(names, ms, i, ms.len() as int, site, x, debug);
    match st {
        Stmt::Local { init, rest, .. } => {
            lemma_then_has(all_marks_rewrite(names, init@, debug), all_marks_rewrite(names, rest@, debug), site, x, names);
        },
        _ => {},
    }
}

proof fn lemma_body_has(s: Seq<Stmt<Arg>>, names: Seq<Seq<char>>, q: int, p: int, site: usize, x: Seq<char>, debug: bool)
    requires
        rewritten(s, q),
        q < p <= s.len(),
        has_jump_to(stmt_rewrite(names, s[q], debug).jumps, site, x, names),
    ensures
        has_jump_to(body_rewrite(s, names, p, debug).jumps, site, x, names),
    decreases p,
{
    if q < p - 1 {
        lemma_body_has(s, names, q, p - 1, site, x, debug);
        if !is_label(s[p - 1]) {
            lemma_then_has(body_rewrite(s, names, p - 1, debug), stmt_rewrite(names, s[p - 1], debug), site, x, names);
        }
    } else {
        lemma_then_has(body_rewrite(s, names, p - 1, debug), stmt_rewrite(names, s[p - 1], debug), site, x, names);
    }
}

/// Jumps are complete. In an accepted body, every `goto!(x)` outside any
/// closure, in statement position or within any statement but a label, whose
/// `x` names a label, is replaced by a jump from that very invocation to the
/// state of the label named `x`.
pub proof fn law_jumps_complete(body: Body<Arg>, opts: Options)
    ensures
        expand_spec(body, opts) matches Ok(e) ==> {
            let s = body.stmts@;
            let names = label_names(s, s.len() as int);
            &&& forall|q: int, site: usize, x: Seq<char>|
                rewritten(s, q) && #[trigger] goto_names(s[q], site, x) && names.contains(x)
                    ==> has_jump_to(e.jumps, site, x, names)
            &&& forall|q: int, l: int, i: int, site: usize, x: Seq<char>|
                rewritten(s, q) && 0 <= l < mark_lists(s[q]).len() && 0 <= i < mark_lists(s[q])[l].len()
                    && #[trigger] mark_names(mark_lists(s[q])[l][i], site, x) && names.contains(x)
                    ==> has_jump_to(e.jumps, site, x, names)
        },
{
    if let Ok(e) = expand_spec(body, opts) {
        let s = body.stmts@;
        let n = s.len() as int;
        let names = label_names(s, n);
        assert forall|q: int, site: usize, x: Seq<char>|
            rewritten(s, q) && #[trigger] goto_names(s[q], site, x) && names.contains(x)
                implies has_jump_to(e.jumps, site, x, names) by {
            if let Stmt::Macro { arg: Arg::Ident(m), .. } = s[q] {
                lemma_resolve_has(names, site, m, opts.debug);
            }
            lemma_body_has(s, names, q, n, site, x, opts.debug);
        }
        assert forall|q: int, l: int, i: int, site: usize, x: Seq<char>|
            rewritten(s, q) && 0 <= l < mark_lists(s[q]).len() && 0 <= i < mark_lists(s[q])[l].len()
                && #[trigger] mark_names(mark_lists(s[q])[l][i], site, x) && names.contains(x)
                implies has_jump_to(e.jumps, site, x, names) by {
            lemma_stmt_has(names, s[q], l, i, site, x, opts.debug);
            lemma_body_has(s, names, q, n, site, x, opts.debug);
        }
    }
}

/// Whether mark `m`, outside any closure, is a `goto!(…)` that jumps to a
/// state beyond `t`.
pub open spec fn mark_jumps_past(names: Seq<Seq<char>>, m: Mark<Arg>, t: nat) -> bool {
    &&& m.depth == 0
    &&& match m.event {
        Event::Macro { name, arg, .. } => is_word(name, "goto"@) && match goto_state(names, arg) {
            Some(u) => u > t,
            None => false,
        },
        _ => false,
    }
}

/// Whether the statement holds, outside closures, a `goto!(…)` that jumps
/// to a state beyond `t`.
pub open spec fn jumps_past(names: Seq<Seq<char>>, st: Stmt<Arg>, t: nat) -> bool {
    ||| match st {
        Stmt::Macro { name, arg, .. } => is_word(name, "goto"@) && match goto_state(names, arg) {
            Some(u) => u > t,
            None => false,
        },
        _ => false,
    }
    ||| exists|l: int, i: int|
        0 <= l < mark_lists(st).len() && 0 <= i < mark_lists(st)[l].len() && #[trigger] mark_jumps_past(
            names,
            mark_lists(st)[l][i],
            t,
        )
}

/// Whether an initializer with these marks, outside closures, calls a
/// function or a method, or invokes a macro other than `vec!`, `matches!`,
/// `concat!` and `stringify!`.
pub open spec fn calls_or_invokes(ms: Seq<Mark<Arg>>) -> bool {
    exists|i: int|
        #![trigger ms[i]]
        0 <= i < ms.len() && ms[i].depth == 0 && match ms[i].event {
            Event::Call => true,
            Event::Macro { name, .. } => !is_word(name, "vec"@) && !is_word(name, "matches"@)
                && !is_word(name, "concat"@) && !is_word(name, "stringify"@),
            Event::Closure => false,
        }
}

/// Why strict mode may raise `f`.
pub open spec fn strict_reason(s: Seq<Stmt<Arg>>, names: Seq<Seq<char>>, f: Fault) -> bool {
    match f {
        Fault::LetAfterGoto { stmt } => 0 <= stmt < s.len() && match s[stmt as int] {
            Stmt::Local { init, .. } => calls_or_invokes(init@),
            _ => false,
        },
        Fault::SkippableLet { stmt } => {
            &&& 0 <= stmt < s.len()
            &&& match s[stmt as int] {
                Stmt::Local { init, .. } => calls_or_invokes(init@),
                _ => false,
            }
            &&& exists|r: int|
                0 <= r < stmt && segment_of(s, r) < segment_of(s, stmt as int) && !is_label(s[r])
                    && #[trigger] jumps_past(names, s[r], segment_of(s, stmt as int))
        },
        _ => false,
    }
}

proof fn lemma_works(ms: Seq<Mark<Arg>>)
    requires
        works(ms),
    ensures
        calls_or_invokes(ms),
{
    let i = choose|i: int| 0 <= i < ms.len() && #[trigger] crate::strict::does_work(ms[i]);
    assert(ms[i].depth == 0);
}

proof fn lemma_marks_reach(names: Seq<Seq<char>>, ms: Seq<Mark<Arg>>, k: int, t: nat)
    requires
        0 <= k <= ms.len(),
        marks_reach(names, ms, k) > t,
    ensures
        exists|i: int| 0 <= i < k && #[trigger] mark_jumps_past(names, ms[i], t),
    decreases k,
{
    if k > 0 {
        if marks_reach(names, ms, k - 1) > t {
            lemma_marks_reach(names, ms, k - 1, t);
            let i = choose|i: int| 0 <= i < k - 1 && #[trigger] mark_jumps_past(names, ms[i], t);
            assert(mark_jumps_past(names, ms[i], t));
        } else {
            assert(mark_jumps_past(names, ms[k - 1], t));
        }
    }
}

proof fn lemma_stmt_reach(names: Seq<Seq<char>>, st: Stmt<Arg>, t: nat)
    requires
        stmt_reach(names, st) > t,
    ensures
        jumps_past(names, st, t),
{
    match st {
        Stmt::Local { init, rest, .. } => {
            let lists = mark_lists(st);
            if marks_reach(names, init@, init@.len() as int) > t {
                lemma_marks_reach(names, init@, init@.len() as int, t);
                let i = choose|i: int| 0 <= i < init@.len() && #[trigger] mark_jumps_past(names, init@[i], t);
                assert(lists[0] == init@);
                assert(mark_jumps_past(names, lists[0][i], t));
            } else {
                lemma_marks_reach(names, rest@, rest@.len() as int, t);
                let i = choose|i: int| 0 <= i < rest@.len() && #[trigger] mark_jumps_past(names, rest@[i], t);
                assert(lists[1] == rest@);
                assert(mark_jumps_past(names, lists[1][i], t));
            }
        },
        Stmt::Expr { marks, .. } => {
            let lists = mark_lists(st);
            lemma_marks_reach(names, marks@, marks@.len() as int, t);
            let i = choose|i: int| 0 <= i < marks@.len() && #[trigger] mark_jumps_past(names, marks@[i], t);
            assert(lists[0] == marks@);
            assert(mark_jumps_past(names, lists[0][i], t));
        },
        _ => {},
    }
}

proof fn lemma_reach_upto(s: Seq<Stmt<Arg>>, names: Seq<Seq<char>>, m: int, t: nat)
    requires
        0 <= m <= s.len(),
        reach_upto(s, names, m) > t,
    ensures
        exists|r: int| 0 <= r < m && !is_label(s[r]) && #[trigger] jumps_past(names, s[r], t),
    decreases m,
{
    if m > 0 {
        if reach_upto(s, names, m - 1) > t {
            lemma_reach_upto(s, names, m - 1, t);
            let r = choose|r: int| 0 <= r < m - 1 && !is_label(s[r]) && #[trigger] jumps_past(names, s[r], t);
            assert(jumps_past(names, s[r], t));
        } else {
            lemma_stmt_reach(names, s[m - 1], t);
            assert(jumps_past(names, s[m - 1], t));
        }
    }
}

proof fn lemma_reach_earlier(s: Seq<Stmt<Arg>>, names: Seq<Seq<char>>, p: int, t: nat)
    requires
        0 <= p <= s.len(),
        reach_earlier(s, names, p) > t,
    ensures
        exists|r: int|
            0 <= r < p && segment_of(s, r) < segment_of(s, p) && !is_label(s[r])
                && #[trigger] jumps_past(names, s[r], t),
    decreases p,
{
    if p > 0 {
        if is_label(s[p - 1]) {
            lemma_reach_upto(s, names, p - 1, t);
            let r = choose|r: int| 0 <= r < p - 1 && !is_label(s[r]) && #[trigger] jumps_past(names, s[r], t);
            lemma_segment_monotone(s, r, p - 1);
            assert(jumps_past(names, s[r], t));
        } else {
            lemma_reach_earlier(s, names, p - 1, t);
            let r = choose|r: int|
                0 <= r < p - 1 && segment_of(s, r) < segment_of(s, p - 1) && !is_label(s[r])
                    && #[trigger] jumps_past(names, s[r], t);
            assert(jumps_past(names, s[r], t));
        }
    }
}

/// Reasons for strict errors. Strict mode refuses only a `let` whose
/// initializer, outside closures, calls a function or a method or invokes a
/// macro other than `vec!`, `matches!`, `concat!` and `stringify!`; and it
/// reports such a `let` as skippable only when a statement of an earlier
/// segment holds a `goto!(…)` that jumps beyond the `let`'s own segment,
/// so that a jump to the segment's own label never makes it skippable.
pub proof fn law_strict_reasons(s: Seq<Stmt<Arg>>, names: Seq<Seq<char>>, p: int)
    requires
        0 <= p <= s.len(),
    ensures
        forall|i: int|
            0 <= i < strict_faults(s, names, p).len() ==> strict_reason(
                s,
                names,
                #[trigger] strict_faults(s, names, p)[i],
            ),
    decreases p,
{
    if p > 0 {
        law_strict_reasons(s, names, p - 1);
        let prev = strict_faults(s, names, p - 1);
        let cur = strict_faults(s, names, p);
        let q = p - 1;
        if cur.len() > prev.len() {
            if let Stmt::Local { init, .. } = s[q] {
                lemma_works(init@);
                if cur[cur.len() - 1] is SkippableLet {
                    lemma_reach_earlier(s, names, q, segment_of(s, q));
                }
            }
        }
        assert forall|i: int| 0 <= i < cur.len() implies strict_reason(s, names, #[trigger] cur[i]) by {
            if i < prev.len() {
                assert(cur[i] == prev[i]);
            }
        }
    }
}

/// The switches. No word, no switch; a further word turns `debug` on exactly
/// when it is `debug`, and `strict` exactly when it is `strict`, and changes
/// nothing else.
pub proof fn law_options(words: Seq<String>, x: String)
    ensures
        !options_of(Seq::empty()).debug,
        !options_of(Seq::empty()).strict,
        options_of(words.push(x)).debug == (options_of(words).debug || x@ == "debug"@),
        options_of(words.push(x)).strict == (options_of(words).strict || x@ == "strict"@),
{
    let w = words.push(x);
    assert(w[w.len() - 1] == x);
    assert forall|i: int| 0 <= i < words.len() implies #[trigger] w[i] == words[i] by {}
    if options_of(words).debug {
        let i = choose|i: int| 0 <= i < words.len() && words[i]@ == "debug"@;
        assert(w[i]@ == "debug"@);
    }
    if options_of(words).strict {
        let i = choose|i: int| 0 <= i < words.len() && words[i]@ == "strict"@;
        assert(w[i]@ == "strict"@);
    }
    if options_of(w).debug {
        let i = choose|i: int| 0 <= i < w.len() && w[i]@ == "debug"@;
        if i < words.len() {
            assert(words[i]@ == "debug"@);
        }
    }
    if options_of(w).strict {
        let i = choose|i: int| 0 <= i < w.len() && w[i]@ == "strict"@;
        if i < words.len() {
            assert(words[i]@ == "strict"@);
        }
    }
}

} // verus!
